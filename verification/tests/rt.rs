use keystory::checker::{CheckModel, CheckResult, Model};
use keystory::raft::{ClusterError, RaftCluster};
use keystory::rt::{yield_once as core_yield, Scheduler as Core, TaskId, YieldOnce as CoreYield};
use std::cell::{Cell, RefCell};
use std::collections::VecDeque;
use std::future::Future;
use std::pin::Pin;
use std::rc::Rc;
use std::sync::atomic::{AtomicU32, Ordering};
use std::sync::{Arc, Mutex};
use std::task::{Context, Poll, Wake, Waker};

type BoxFuture = Pin<Box<dyn Future<Output = ()>>>;

/// A driver around the core: it polls futures and collects wake-ups.
struct Scheduler {
    core: RefCell<Core<BoxFuture>>,
    woken: Arc<Mutex<VecDeque<TaskId>>>,
}

struct TaskWaker {
    id: TaskId,
    woken: Arc<Mutex<VecDeque<TaskId>>>,
}

impl Wake for TaskWaker {
    fn wake(self: Arc<Self>) {
        self.woken.lock().unwrap().push_back(self.id);
    }
}

impl Scheduler {
    fn new() -> Rc<Scheduler> {
        Rc::new(Scheduler {
            core: RefCell::new(Core::new()),
            woken: Arc::new(Mutex::new(VecDeque::new())),
        })
    }

    fn flush(&self) {
        let mut woken = self.woken.lock().unwrap();
        while let Some(id) = woken.pop_front() {
            self.core.borrow_mut().wake(id);
        }
    }

    fn add(&self, fut: BoxFuture) -> TaskId {
        self.flush();
        assert!(self.core.borrow().has_room());
        self.core.borrow_mut().add(fut)
    }

    fn waker(&self, id: TaskId) -> Waker {
        Waker::from(Arc::new(TaskWaker {
            id,
            woken: Arc::clone(&self.woken),
        }))
    }

    fn run(&self) {
        loop {
            self.flush();
            let next = self.core.borrow_mut().next();
            let (id, mut fut) = match next {
                Some(t) => t,
                None => return,
            };
            let waker = self.waker(id);
            let done = fut.as_mut().poll(&mut Context::from_waker(&waker)).is_ready();
            if done {
                drop(fut);
                self.core.borrow_mut().finish(id);
            } else {
                self.core.borrow_mut().suspend(id, fut);
            }
        }
    }

    fn block_on<F: Future + 'static>(&self, fut: F) -> F::Output {
        let out: Rc<RefCell<Option<F::Output>>> = Rc::new(RefCell::new(None));
        let sink = Rc::clone(&out);
        self.add(Box::pin(async move {
            let v = fut.await;
            *sink.borrow_mut() = Some(v);
        }));
        self.run();
        let v = out.borrow_mut().take();
        v.expect("root future was polled to completion")
    }

    fn live_tasks(&self) -> usize {
        self.core.borrow().live_tasks()
    }

    fn slot_count(&self) -> usize {
        self.core.borrow().slot_count()
    }
}

struct YieldOnce(CoreYield);

impl Future for YieldOnce {
    type Output = ();
    fn poll(mut self: Pin<&mut Self>, cx: &mut Context<'_>) -> Poll<()> {
        if self.0.step() {
            Poll::Ready(())
        } else {
            cx.waker().wake_by_ref();
            Poll::Pending
        }
    }
}

fn yield_once() -> YieldOnce {
    YieldOnce(core_yield())
}

#[test]
fn block_on_runs_to_completion() {
    let s = Scheduler::new();
    let out = s.block_on(async { 21u32 * 2 });
    assert_eq!(out, 42);
}

#[test]
fn await_resumes_cooperatively() {
    let s = Scheduler::new();
    let out = s.block_on(async {
        let a = async { 7u32 }.await;
        let b = async { 8u32 }.await;
        a + b
    });
    assert_eq!(out, 15);
}

#[test]
fn yields_once_then_completes() {
    let s = Scheduler::new();
    let out = s.block_on(async {
        yield_once().await;
        yield_once().await;
        "done"
    });
    assert_eq!(out, "done");
}

#[test]
fn cooperative_interleave_counts() {
    let s = Scheduler::new();
    let hits = Arc::new(AtomicU32::new(0));
    let n: u32 = 5;
    let total = s.block_on(async move {
        for _ in 0..n {
            let h = Arc::clone(&hits);
            async move {
                h.fetch_add(1, Ordering::SeqCst);
            }
            .await;
        }
        hits.load(Ordering::SeqCst)
    });
    assert_eq!(total, n);
}

#[test]
fn adding_a_task_from_inside_a_task_does_not_deadlock() {
    let s = Scheduler::new();
    let hits = Arc::new(AtomicU32::new(0));
    let (s2, h2) = (Rc::clone(&s), Arc::clone(&hits));
    s.block_on(async move {
        s2.add(Box::pin(async move {
            h2.fetch_add(1, Ordering::SeqCst);
        }));
        yield_once().await; // let the child run before the root completes
    });
    assert_eq!(hits.load(Ordering::SeqCst), 1, "the child task ran");
    assert_eq!(s.live_tasks(), 0);
}

#[test]
fn finished_slots_are_reused() {
    let s = Scheduler::new();
    for i in 0..200u32 {
        assert_eq!(s.block_on(async move { i }), i);
    }
    assert!(
        s.slot_count() <= 1,
        "200 sequential tasks should reuse one slot, table has {}",
        s.slot_count()
    );
}

/// A future that stores its waker and completes, so the waker outlives the task.
struct StashWaker(Arc<Mutex<Option<Waker>>>);

impl Future for StashWaker {
    type Output = ();
    fn poll(self: Pin<&mut Self>, cx: &mut Context<'_>) -> Poll<()> {
        *self.0.lock().unwrap() = Some(cx.waker().clone());
        Poll::Ready(())
    }
}

/// A future that counts its polls and never completes or wakes itself.
struct CountPolls(Arc<AtomicU32>);

impl Future for CountPolls {
    type Output = ();
    fn poll(self: Pin<&mut Self>, _cx: &mut Context<'_>) -> Poll<()> {
        self.0.fetch_add(1, Ordering::SeqCst);
        Poll::Pending
    }
}

#[test]
fn stale_waker_cannot_wake_a_reused_slot() {
    let s = Scheduler::new();
    let stash: Arc<Mutex<Option<Waker>>> = Arc::new(Mutex::new(None));
    let st = Arc::clone(&stash);
    s.block_on(async move {
        StashWaker(st).await;
    });
    let stale = stash.lock().unwrap().take().expect("waker stashed");

    let polls = Arc::new(AtomicU32::new(0));
    let id = s.add(Box::pin(CountPolls(Arc::clone(&polls))));
    assert_eq!(id.slot, 0, "the finished root's slot is reused");
    s.run();
    assert_eq!(polls.load(Ordering::SeqCst), 1, "first poll");

    stale.wake_by_ref();
    s.run();
    assert_eq!(
        polls.load(Ordering::SeqCst),
        1,
        "a stale waker must not poll the slot's new occupant"
    );

    s.waker(id).wake();
    s.run();
    assert_eq!(polls.load(Ordering::SeqCst), 2, "a current waker does");
}

async fn put(
    cluster: Rc<RefCell<RaftCluster>>,
    key: Vec<u8>,
    val: Vec<u8>,
) -> Result<u64, ClusterError> {
    yield_once().await;
    cluster.borrow_mut().put(&key, &val)
}

async fn get(
    cluster: Rc<RefCell<RaftCluster>>,
    key: Vec<u8>,
) -> Result<Option<Vec<u8>>, ClusterError> {
    yield_once().await;
    cluster.borrow_mut().get(&key)
}

fn run<F: Future + 'static>(work: F) -> F::Output {
    Scheduler::new().block_on(work)
}

fn check(cluster: &Rc<RefCell<RaftCluster>>) -> CheckResult {
    cluster.borrow().model().unwrap().check()
}

#[test]
fn async_workload_converges() {
    let cluster = Rc::new(RefCell::new(RaftCluster::with_model(3, Model::new())));
    let cluster_check = cluster.clone();

    run(async move {
        for i in 0..60u64 {
            let c = cluster_check.clone();
            let key: Vec<u8> = vec![b'k', i as u8];
            let val: Vec<u8> = vec![b'v', i as u8];
            put(c, key, val).await.unwrap();
        }
        for _ in 0..20 {
            let c = cluster_check.clone();
            let got = get(c, vec![b'k', 0u8]).await.unwrap();
            assert_eq!(got, Some(vec![b'v', 0u8]));
        }
    });

    let r = check(&cluster);
    assert!(r.violations.is_empty(), "async workload must be linearizable");
    assert!(r.checked > 0, "we recorded reads to validate");
}

#[test]
fn async_failover_then_converges() {
    let cluster = Rc::new(RefCell::new(RaftCluster::with_model(3, Model::new())));

    let c1 = cluster.clone();
    run(async move {
        for i in 0..30u64 {
            let c = c1.clone();
            let key: Vec<u8> = vec![b'f', i as u8];
            let val: Vec<u8> = vec![b'f', i as u8];
            put(c, key, val).await.unwrap();
        }
    });

    cluster.borrow_mut().fail(3);
    assert!(
        cluster.borrow().leader().is_some(),
        "a quorum (2 of 3) remains, so a leader re-emerges"
    );

    let c2 = cluster.clone();
    run(async move {
        for i in 0..20u64 {
            let c = c2.clone();
            let key: Vec<u8> = vec![b'g', i as u8];
            let val: Vec<u8> = vec![b'g', i as u8];
            put(c.clone(), key, val).await.unwrap();
            let _ = get(c, vec![b'x', 1u8]).await.unwrap();
        }
    });

    let r = check(&cluster);
    assert!(r.violations.is_empty(), "post-failover async workload must be linearizable");
}

/// The core by itself: first come, first served; a task in the middle of a poll is not handed
/// out twice.
#[test]
fn the_core_is_fair() {
    let mut s: Core<&str> = Core::new();
    let a = s.add("a");
    let b = s.add("b");
    assert_eq!((s.live_tasks(), s.slot_count()), (2, 2));
    s.wake(a);
    assert_eq!(s.next(), Some((a, "a")));
    assert_eq!(s.next(), Some((b, "b")));
    assert_eq!(s.next(), None, "the second wake-up of a found it being polled");
    s.suspend(a, "a2");
    s.finish(b);
    s.wake(b);
    s.wake(a);
    assert_eq!(s.next(), Some((a, "a2")));
    let c = s.add("c");
    assert_eq!(c, TaskId { slot: b.slot, generation: b.generation + 1 });
    s.wake(b);
    assert_eq!(s.next(), Some((c, "c")));
    assert_eq!(s.next(), None);
    s.finish(a);
    s.finish(c);
    assert_eq!((s.live_tasks(), s.slot_count()), (0, 2));
}

/// A yield point is done on every step but the first.
#[test]
fn a_yield_point_steps_twice() {
    let mut y = core_yield();
    assert!(!y.step());
    assert!(y.step());
    assert!(y.step());
    let polls = Cell::new(0);
    let mut z = core_yield();
    while !z.step() {
        polls.set(polls.get() + 1);
    }
    assert_eq!(polls.get(), 1);
}

/// However tasks come and go, no id is handed out twice.
#[test]
fn no_id_is_handed_out_twice() {
    let mut s: Core<u32> = Core::new();
    let mut seen = Vec::new();
    for round in 0..20u32 {
        for k in 0..3 {
            let id = s.add(round * 3 + k);
            assert!(!seen.contains(&id));
            seen.push(id);
        }
        for _ in 0..2 {
            let (id, _task) = s.next().expect("there is a task to run");
            s.finish(id);
        }
    }
    assert_eq!(seen.len(), 60);
    assert_eq!(s.live_tasks(), 20);
    assert!(s.slot_count() < 60, "slots are reused");
}
