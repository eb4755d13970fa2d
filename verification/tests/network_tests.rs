use raftcache::message::{Message, RequestVoteReply};
use raftcache::network::VirtualNetwork;

fn msg() -> Message {
    Message::RequestVoteReply(RequestVoteReply { term: 1, vote_granted: true })
}

#[test]
fn delivers_after_delay() {
    let mut net = VirtualNetwork::new(2);
    net.send(0, 1, msg(), 0); // deliver_at = 2
    assert!(net.deliver_due(1).is_empty());
    assert_eq!(net.deliver_due(2).len(), 1);
}

#[test]
fn drops_across_partition() {
    let mut net = VirtualNetwork::new(1);
    net.partition(&[0]); // isolate node 0
    net.send(0, 1, msg(), 0); // 0 -> 1 crosses the boundary
    assert!(net.deliver_due(5).is_empty());
}

#[test]
fn delivers_within_same_side() {
    let mut net = VirtualNetwork::new(1);
    net.partition(&[0]);
    net.send(1, 2, msg(), 0); // both outside the isolated set
    assert_eq!(net.deliver_due(5).len(), 1);
}

#[test]
fn dropped_message_is_gone_after_heal() {
    let mut net = VirtualNetwork::new(1);
    net.partition(&[0]);
    net.send(0, 1, msg(), 0);
    assert!(net.deliver_due(1).is_empty());
    net.heal();
    assert!(net.deliver_due(10).is_empty());
}

#[test]
fn delivery_keeps_send_order_and_pending_messages() {
    let mut net = VirtualNetwork::new(3);
    net.send(0, 1, msg(), 0); // due at 3
    net.send(2, 1, msg(), 5); // due at 8
    net.send(1, 0, msg(), 1); // due at 4
    let first = net.deliver_due(4);
    assert_eq!(first.len(), 2);
    assert_eq!((first[0].0, first[0].1), (0, 1));
    assert_eq!((first[1].0, first[1].1), (1, 0));
    let second = net.deliver_due(8);
    assert_eq!(second.len(), 1);
    assert_eq!((second[0].0, second[0].1), (2, 1));
    assert!(net.deliver_due(100).is_empty());
}

#[test]
fn isolated_nodes_reach_each_other() {
    let mut net = VirtualNetwork::new(1);
    net.partition(&[0, 1]);
    net.send(0, 1, msg(), 0);
    net.send(0, 2, msg(), 0);
    let due = net.deliver_due(1);
    assert_eq!(due.len(), 1);
    assert_eq!((due[0].0, due[0].1), (0, 1));
}
