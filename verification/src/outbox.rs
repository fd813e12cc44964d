//! The outbox: messages that could not be forwarded yet, kept in order of
//! arrival until the channel they belong to has a live destination.
//!
//! The outbox here lives in memory. A durable store that mirrors it offers
//! the same two operations: insert one message, and drain a channel.
use crate::text::str_eq;
use vstd::prelude::*;
use vstd::slice::slice_to_vec;

verus! {

/// One row of the outbox: the channel's name and the message.
pub type Row = (Seq<char>, Seq<u8>);

/// The messages kept for `channel`, oldest first.
pub open spec fn messages_for(rows: Seq<Row>, channel: Seq<char>) -> Seq<Seq<u8>>
    decreases rows.len(),
{
    if rows.len() == 0 {
        Seq::empty()
    } else if rows.last().0 == channel {
        messages_for(rows.drop_last(), channel).push(rows.last().1)
    } else {
        messages_for(rows.drop_last(), channel)
    }
}

/// The rows that are left when those of `channel` are taken out.
pub open spec fn without(rows: Seq<Row>, channel: Seq<char>) -> Seq<Row>
    decreases rows.len(),
{
    if rows.len() == 0 {
        Seq::empty()
    } else if rows.last().0 == channel {
        without(rows.drop_last(), channel)
    } else {
        without(rows.drop_last(), channel).push(rows.last())
    }
}

/// The rows after the messages of `data` arrived for `channel`, in order.
pub open spec fn with_messages(rows: Seq<Row>, channel: Seq<char>, data: Seq<Seq<u8>>) -> Seq<Row>
    decreases data.len(),
{
    if data.len() == 0 {
        rows
    } else {
        with_messages(rows, channel, data.drop_last()).push((channel, data.last()))
    }
}

/// Draining a channel leaves none of its messages behind, and leaves the
/// messages of every other channel as they were.
pub proof fn lemma_without(rows: Seq<Row>, channel: Seq<char>, other: Seq<char>)
    ensures
        messages_for(without(rows, channel), channel) == Seq::<Seq<u8>>::empty(),
        other != channel ==> messages_for(without(rows, channel), other) == messages_for(
            rows,
            other,
        ),
    decreases rows.len(),
{
    if rows.len() > 0 {
        lemma_without(rows.drop_last(), channel, other);
        if rows.last().0 != channel {
            let kept = without(rows.drop_last(), channel).push(rows.last());
            assert(kept.drop_last() =~= without(rows.drop_last(), channel));
            assert(kept.last() == rows.last());
        }
    }
}

/// First in, first out, once: messages that arrive for a channel come out of
/// a drain after those that were waiting, in the order of their arrival, and
/// a second drain finds nothing.
pub proof fn lemma_fifo(rows: Seq<Row>, channel: Seq<char>, data: Seq<Seq<u8>>)
    ensures
        messages_for(with_messages(rows, channel, data), channel) == messages_for(rows, channel)
            + data,
        messages_for(without(with_messages(rows, channel, data), channel), channel) == Seq::<
            Seq<u8>,
        >::empty(),
    decreases data.len(),
{
    lemma_without(with_messages(rows, channel, data), channel, channel);
    if data.len() == 0 {
        assert(messages_for(rows, channel) + data =~= messages_for(rows, channel));
    } else {
        let before = with_messages(rows, channel, data.drop_last());
        let after = with_messages(rows, channel, data);
        lemma_fifo(rows, channel, data.drop_last());
        assert(after.drop_last() =~= before);
        assert(after.last() == (channel, data.last()));
        assert(messages_for(rows, channel) + data =~= (messages_for(rows, channel)
            + data.drop_last()).push(data.last()));
    }
}

/// Messages waiting for a destination, in order of arrival.
pub struct Outbox {
    rows: Vec<(String, Vec<u8>)>,
}

/// A row as a pair of mathematical values.
pub open spec fn row_view(r: (String, Vec<u8>)) -> Row {
    (r.0@, r.1@)
}

impl View for Outbox {
    type V = Seq<Row>;

    /// The rows, oldest first.
    closed spec fn view(&self) -> Seq<Row> {
        self.rows@.map_values(|r: (String, Vec<u8>)| row_view(r))
    }
}

impl Outbox {
    /// An outbox without rows.
    pub fn new() -> (o: Self)
        ensures
            o@ == Seq::<Row>::empty(),
    {
        let o = Outbox { rows: Vec::new() };
        assert(o@ =~= Seq::<Row>::empty());
        o
    }

    /// How many messages wait, over all channels.
    pub fn len(&self) -> (n: usize)
        ensures
            n == self@.len(),
    {
        self.rows.len()
    }

    /// Appends a message for `channel`.
    pub fn insert(&mut self, channel: String, data: Vec<u8>)
        ensures
            final(self)@ == old(self)@.push((channel@, data@)),
    {
        self.rows.push((channel, data));
        assert(self@ =~= old(self)@.push((channel@, data@)));
    }

    /// Takes out every message of `channel` and returns them, oldest first.
    /// The messages of other channels stay, in their order.
    pub fn drain_all(&mut self, channel: &str) -> (out: Vec<Vec<u8>>)
        ensures
            out@.map_values(|d: Vec<u8>| d@) == messages_for(old(self)@, channel@),
            final(self)@ == without(old(self)@, channel@),
    {
        let mut rows: Vec<(String, Vec<u8>)> = Vec::new();
        core::mem::swap(&mut rows, &mut self.rows);
        let ghost all = rows@.map_values(|r: (String, Vec<u8>)| row_view(r));
        assert(all == old(self)@);
        assert(self@ =~= Seq::<Row>::empty());
        let mut out: Vec<Vec<u8>> = Vec::new();
        assert(out@.map_values(|d: Vec<u8>| d@) =~= Seq::<Seq<u8>>::empty());
        let mut i: usize = 0;
        while i < rows.len()
            invariant
                i <= rows.len(),
                all == rows@.map_values(|r: (String, Vec<u8>)| row_view(r)),
                out@.map_values(|d: Vec<u8>| d@) == messages_for(all.take(i as int), channel@),
                self@ == without(all.take(i as int), channel@),
            decreases rows.len() - i,
        {
            let ghost sent = out@.map_values(|d: Vec<u8>| d@);
            let ghost kept = self@;
            proof {
                assert(all.take(i + 1).drop_last() =~= all.take(i as int));
                assert(all.take(i + 1).last() == row_view(rows@[i as int]));
            }
            let data = slice_to_vec(rows[i].1.as_slice());
            if str_eq(rows[i].0.as_str(), channel) {
                out.push(data);
                assert(out@.map_values(|d: Vec<u8>| d@) =~= sent.push(data@));
            } else {
                self.rows.push((rows[i].0.clone(), data));
                assert(self@ =~= kept.push(row_view(rows@[i as int])));
            }
            i += 1;
        }
        assert(all.take(i as int) =~= all);
        out
    }
}

} // verus!
