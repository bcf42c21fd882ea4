//! The command line client: the message it sends for its arguments, and
//! which of the server's messages it prints.

use vstd::prelude::*;
use crate::ipc::{ClientResponseData, ClientResponseMessage, ServerMessage};

verus! {

/// The words `ws` joined by single spaces.
pub open spec fn joined(ws: Seq<Seq<char>>) -> Seq<char>
    decreases ws.len(),
{
    if ws.len() == 0 {
        Seq::empty()
    } else if ws.len() == 1 {
        ws[0]
    } else {
        joined(ws.drop_last()) + seq![' '] + ws.last()
    }
}

/// Joined words hold each word in turn with one space between each two:
/// the first word leads, and the rest follows it after a space.
pub proof fn lemma_joined(ws: Seq<Seq<char>>)
    ensures
        ws.len() == 1 ==> joined(ws) == ws[0],
        ws.len() > 1 ==> joined(ws) == ws[0] + seq![' '] + joined(ws.drop_first()),
    decreases ws.len(),
{
    if ws.len() > 1 {
        let r = ws.drop_last();
        lemma_joined(r);
        assert(ws.drop_first().drop_last() =~= r.drop_first());
        assert(ws.drop_first().last() == ws.last());
        if r.len() == 1 {
            assert(ws.drop_first() =~= seq![ws.last()]);
        }
        assert(ws =~= r.push(ws.last()));
    }
}

/// The message for the program's arguments: all but the first (the
/// program's name), joined by spaces.
pub fn cli_message(args: &Vec<String>) -> (m: String)
    requires
        args.len() >= 1,
    ensures
        m@ == joined(args@.drop_first().map_values(|a: String| a@)),
{
    let ghost words = args@.drop_first().map_values(|a: String| a@);
    let mut m = String::new();
    let mut i: usize = 1;
    while i < args.len()
        invariant
            1 <= i <= args@.len(),
            words == args@.drop_first().map_values(|a: String| a@),
            m@ == joined(words.take(i - 1)),
        decreases args@.len() - i,
    {
        proof {
            assert(words.take(i as int).drop_last() =~= words.take(i - 1));
            assert(words.take(i as int).last() == args@[i as int]@);
        }
        if i > 1 {
            let space = " ";
            proof {
                reveal_strlit(" ");
            }
            m.append(space);
        } else {
            proof {
                assert(words.take(0) =~= Seq::<Seq<char>>::empty());
            }
        }
        m.append(args[i].as_str());
        i = i + 1;
    }
    proof {
        assert(words.take(i - 1) =~= words);
    }
    m
}

/// How the client goes on after the first answer.
pub enum CliMode {
    /// A subscription: print every later message for this subscription.
    Stream(u128),
    /// Print the answer and stop.
    Print,
}

/// Subscriptions (`sub` and `hear`) are streamed; every other answer is
/// printed once.
pub fn cli_mode(response: &ClientResponseMessage) -> (r: CliMode)
    ensures
        match response.data {
            Some(ClientResponseData::EventSubscribe(d)) => r == CliMode::Stream(d.subscription_id),
            _ => r is Print,
        },
{
    match &response.data {
        Some(ClientResponseData::EventSubscribe(d)) => CliMode::Stream(d.subscription_id),
        _ => CliMode::Print,
    }
}

/// A message is printed while streaming when it is an event or a word for
/// the client's subscription.
pub open spec fn spec_streamed(msg: ServerMessage, subscription_id: u128) -> bool {
    match msg {
        ServerMessage::EventSubscription(m) => m.subscription_id == subscription_id,
        ServerMessage::HearBroadcast(m) => m.subscription_id == subscription_id,
        ServerMessage::ClientResponse(_) => false,
    }
}

/// While streaming, answers are never printed, and events and words are
/// printed exactly when they carry the client's subscription id.
pub proof fn lemma_streamed(msg: ServerMessage, subscription_id: u128)
    ensures
        msg is ClientResponse ==> !spec_streamed(msg, subscription_id),
        msg matches ServerMessage::EventSubscription(m) ==> (spec_streamed(msg, subscription_id) <==> m.subscription_id
            == subscription_id),
        msg matches ServerMessage::HearBroadcast(m) ==> (spec_streamed(msg, subscription_id) <==> m.subscription_id
            == subscription_id),
{
}

/// Whether a message is printed while streaming (see `spec_streamed`).
pub fn streamed(msg: &ServerMessage, subscription_id: u128) -> (r: bool)
    ensures
        r == spec_streamed(*msg, subscription_id),
{
    match msg {
        ServerMessage::EventSubscription(m) => m.subscription_id == subscription_id,
        ServerMessage::HearBroadcast(m) => m.subscription_id == subscription_id,
        ServerMessage::ClientResponse(_) => false,
    }
}

} // verus!
