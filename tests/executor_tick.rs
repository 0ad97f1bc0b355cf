use std::future::Future;
use std::pin::Pin;
use std::sync::atomic::{AtomicUsize, Ordering};
use std::sync::Arc;
use std::task::{Context, Poll};

use reactive_host::{HostIntegration, HostStore, ManagedExecutor, NodeId, Subscription};

type Remote = Pin<Box<dyn Future<Output = ()> + Send>>;
type Local = Pin<Box<dyn Future<Output = ()>>>;

/// Not ready for the first `pending` polls, ready afterwards.
struct CountDown {
    pending: usize,
    polls: Arc<AtomicUsize>,
}

impl Future for CountDown {
    type Output = ();

    fn poll(mut self: Pin<&mut Self>, _cx: &mut Context<'_>) -> Poll<()> {
        self.polls.fetch_add(1, Ordering::SeqCst);
        if self.pending == 0 {
            Poll::Ready(())
        } else {
            self.pending -= 1;
            Poll::Pending
        }
    }
}

fn tick(layer: &mut HostIntegration<Remote, Local>, host: HostStore) -> (HostStore, Vec<u64>) {
    let fired = layer.notify_changes(&host);
    let (host, _) = layer.flush_leased(host);
    (host, fired)
}

fn count_down(pending: usize, polls: &Arc<AtomicUsize>) -> CountDown {
    CountDown { pending, polls: polls.clone() }
}

#[test]
fn task_ready_on_fourth_poll_is_gone_after_four_flushes() {
    let polls = Arc::new(AtomicUsize::new(0));
    let mut ex: ManagedExecutor<Remote, Local> = ManagedExecutor::new();
    let id = ex.spawn(Box::pin(count_down(3, &polls)));
    for round in 1..=3 {
        assert_eq!(ex.flush(), 1);
        assert_eq!(ex.remote_ids(), vec![id], "still queued after flush {round}");
    }
    assert_eq!(ex.flush(), 1);
    assert_eq!(ex.remote_ids(), Vec::<u64>::new());
    assert_eq!(polls.load(Ordering::SeqCst), 4);
}

#[test]
fn ready_task_is_dropped_on_first_flush() {
    let polls = Arc::new(AtomicUsize::new(0));
    let mut ex: ManagedExecutor<Remote, Local> = ManagedExecutor::new();
    ex.spawn(Box::pin(count_down(0, &polls)));
    ex.spawn_local(Box::pin(count_down(0, &polls)));
    assert_eq!(ex.flush(), 2);
    assert_eq!(ex.remote_ids(), Vec::<u64>::new());
    assert_eq!(ex.local_ids(), Vec::<u64>::new());
    assert_eq!(polls.load(Ordering::SeqCst), 2);
}

#[test]
fn flush_polls_each_task_once_even_if_none_finishes() {
    let polls = Arc::new(AtomicUsize::new(0));
    let mut ex: ManagedExecutor<Remote, Local> = ManagedExecutor::new();
    let a = ex.spawn(Box::pin(count_down(usize::MAX, &polls)));
    let b = ex.spawn(Box::pin(count_down(usize::MAX, &polls)));
    let c = ex.spawn_local(Box::pin(count_down(usize::MAX, &polls)));
    assert_eq!(ex.flush(), 3);
    assert_eq!(polls.load(Ordering::SeqCst), 3);
    assert_eq!(ex.flush(), 3);
    assert_eq!(polls.load(Ordering::SeqCst), 6);
    assert_eq!(ex.remote_ids(), vec![a, b]);
    assert_eq!(ex.local_ids(), vec![c]);
}

#[test]
fn pending_tasks_keep_their_order() {
    let polls = Arc::new(AtomicUsize::new(0));
    let mut ex: ManagedExecutor<Remote, Local> = ManagedExecutor::new();
    let a = ex.spawn(Box::pin(count_down(2, &polls)));
    let b = ex.spawn(Box::pin(count_down(0, &polls)));
    let c = ex.spawn(Box::pin(count_down(1, &polls)));
    assert_eq!(ex.flush(), 3);
    assert_eq!(ex.remote_ids(), vec![a, c]);
    assert_eq!(ex.flush(), 2);
    assert_eq!(ex.remote_ids(), vec![a]);
    assert_ne!(a, b);
}

#[test]
fn empty_flush_polls_nothing() {
    let mut ex: ManagedExecutor<Remote, Local> = ManagedExecutor::new();
    assert_eq!(ex.flush(), 0);
}

#[test]
fn tick_fires_subscriptions_of_changed_resources() {
    let mut layer: HostIntegration<Remote, Local> = HostIntegration::new();
    let mut host = HostStore::new();
    let r0 = host.add_resource();
    let r1 = host.add_resource();
    let root = NodeId(1);
    assert!(layer.mount_root(root));
    assert!(!layer.mount_root(root));
    assert!(layer.subscribe(root, Subscription { resource: r0, trigger: 10 }));
    assert!(layer.subscribe(root, Subscription { resource: r1, trigger: 11 }));
    assert!(layer.subscribe(root, Subscription { resource: 7, trigger: 12 }));
    assert!(!layer.subscribe(NodeId(5), Subscription { resource: r0, trigger: 13 }));

    // Every present resource is new on the first tick; resource 7 is absent.
    let (host, fired) = tick(&mut layer, host);
    assert_eq!(fired, vec![10, 11]);
    let (mut host, fired) = tick(&mut layer, host);
    assert_eq!(fired, Vec::<u64>::new());
    host.touch_resource(r1);
    let (host, fired) = tick(&mut layer, host);
    assert_eq!(fired, vec![11]);
    let (_host, fired) = tick(&mut layer, host);
    assert_eq!(fired, Vec::<u64>::new());
}

#[test]
fn tick_flushes_with_the_host_leased_and_hands_it_back() {
    let polls = Arc::new(AtomicUsize::new(0));
    let mut layer: HostIntegration<Remote, Local> = HostIntegration::new();
    layer.executor.spawn(Box::pin(count_down(1, &polls)));
    let mut host = HostStore::new();
    host.add_resource();
    let fired = layer.notify_changes(&host);
    assert_eq!(fired, Vec::<u64>::new());
    let (host, polled) = layer.flush_leased(host);
    assert_eq!(polled, 1);
    assert_eq!(polls.load(Ordering::SeqCst), 1);
    assert!(!layer.cell.granted());
    assert_eq!(host.versions, vec![0]);
    let (_host, _) = tick(&mut layer, host);
    assert_eq!(polls.load(Ordering::SeqCst), 2);
    assert_eq!(layer.executor.remote_ids(), Vec::<u64>::new());
}

#[test]
fn unmount_removes_root_and_its_subscriptions() {
    let mut layer: HostIntegration<Remote, Local> = HostIntegration::new();
    let mut host = HostStore::new();
    let r = host.add_resource();
    let a = NodeId(1);
    let b = NodeId(2);
    assert!(layer.mount_root(a));
    assert!(layer.mount_root(b));
    assert!(layer.subscribe(a, Subscription { resource: r, trigger: 1 }));
    assert!(layer.subscribe(b, Subscription { resource: r, trigger: 2 }));
    assert_eq!(layer.find_root(b), Some(1));
    assert!(layer.unmount_root(a));
    assert!(!layer.unmount_root(a));
    assert_eq!(layer.find_root(a), None);
    assert_eq!(layer.find_root(b), Some(0));
    let (_host, fired) = tick(&mut layer, host);
    assert_eq!(fired, vec![2]);
}

#[test]
fn same_trigger_on_two_changed_resources_fires_twice() {
    let mut layer: HostIntegration<Remote, Local> = HostIntegration::new();
    let mut host = HostStore::new();
    let r0 = host.add_resource();
    let r1 = host.add_resource();
    let root = NodeId(3);
    assert!(layer.mount_root(root));
    assert!(layer.subscribe(root, Subscription { resource: r0, trigger: 4 }));
    assert!(layer.subscribe(root, Subscription { resource: r1, trigger: 4 }));
    let (host, fired) = tick(&mut layer, host);
    assert_eq!(fired, vec![4, 4]);
    let (_host, fired) = tick(&mut layer, host);
    assert_eq!(fired, Vec::<u64>::new());
}

#[test]
fn subscribing_twice_fires_once() {
    let mut layer: HostIntegration<Remote, Local> = HostIntegration::new();
    let mut host = HostStore::new();
    let r = host.add_resource();
    let root = NodeId(1);
    assert!(layer.mount_root(root));
    let sub = Subscription { resource: r, trigger: 8 };
    assert!(layer.subscribe(root, sub));
    assert!(layer.subscribe(root, sub));
    assert_eq!(layer.roots[0].subscriptions.len(), 1);
    let (_host, fired) = tick(&mut layer, host);
    assert_eq!(fired, vec![8]);
}

#[test]
fn unsubscribed_trigger_no_longer_fires() {
    let mut layer: HostIntegration<Remote, Local> = HostIntegration::new();
    let mut host = HostStore::new();
    let r = host.add_resource();
    let root = NodeId(1);
    assert!(layer.mount_root(root));
    let kept = Subscription { resource: r, trigger: 1 };
    let dropped = Subscription { resource: r, trigger: 2 };
    assert!(layer.subscribe(root, kept));
    assert!(layer.subscribe(root, dropped));
    assert!(layer.unsubscribe(root, dropped));
    assert!(!layer.unsubscribe(root, dropped));
    assert!(!layer.unsubscribe(NodeId(9), kept));
    let (_host, fired) = tick(&mut layer, host);
    assert_eq!(fired, vec![1]);
}
