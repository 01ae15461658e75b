//! Traces of calls with the events they emitted, and what can be read off them.

use vstd::prelude::*;
use dashmap::DashMap;
use crate::address::{Address, B256};
use crate::dash::{pool_entries, pool_get};
use crate::swap::PoolKind;

verus! {

/// An event emitted during a call: the emitting contract, its topics and data.
#[derive(Debug)]
pub struct CallLog {
    pub address: Option<Address>,
    pub topics: Option<Vec<B256>>,
    pub data: Option<Vec<u8>>,
}

pub open spec fn opt_vec_view<T>(v: Option<Vec<T>>) -> Option<Seq<T>> {
    match v {
        Some(x) => Some(x@),
        None => None,
    }
}

impl CallLog {
    pub open spec fn view(&self) -> (Option<Address>, Option<Seq<B256>>, Option<Seq<u8>>) {
        (self.address, opt_vec_view(self.topics), opt_vec_view(self.data))
    }
}

/// A call of a trace: its target, its events and its sub-calls.
#[derive(Debug)]
pub struct CallFrame {
    pub to: Option<Address>,
    pub logs: Vec<CallLog>,
    pub calls: Vec<CallFrame>,
}

pub open spec fn logs_view(ls: Seq<CallLog>) -> Seq<(Option<Address>, Option<Seq<B256>>, Option<Seq<u8>>)> {
    ls.map_values(|l: CallLog| l@)
}

/// The events of a call and of its sub-calls, depth first.
pub open spec fn frame_logs(f: CallFrame) -> Seq<(Option<Address>, Option<Seq<B256>>, Option<Seq<u8>>)>
    decreases f,
{
    logs_view(f.logs@) + calls_logs(f.calls@, f.calls@.len() as int)
}

/// The events of the first `n` calls of `cs`, each with its sub-calls.
pub open spec fn calls_logs(cs: Seq<CallFrame>, n: int) -> Seq<(Option<Address>, Option<Seq<B256>>, Option<Seq<u8>>)>
    decreases cs, n,
{
    if n <= 0 || n > cs.len() {
        Seq::empty()
    } else {
        calls_logs(cs, n - 1) + frame_logs(cs[n - 1])
    }
}

fn copy_bytes(v: &Vec<u8>) -> (r: Vec<u8>)
    ensures
        r@ == v@,
{
    let mut r: Vec<u8> = Vec::new();
    let mut i: usize = 0;
    while i < v.len()
        invariant
            i <= v@.len(),
            r@ == v@.subrange(0, i as int),
        decreases v@.len() - i,
    {
        r.push(v[i]);
        i = i + 1;
        assert(r@ =~= v@.subrange(0, i as int));
    }
    assert(r@ =~= v@);
    r
}

fn copy_topics(v: &Vec<B256>) -> (r: Vec<B256>)
    ensures
        r@ == v@,
{
    let mut r: Vec<B256> = Vec::new();
    let mut i: usize = 0;
    while i < v.len()
        invariant
            i <= v@.len(),
            r@ == v@.subrange(0, i as int),
        decreases v@.len() - i,
    {
        r.push(v[i]);
        i = i + 1;
        assert(r@ =~= v@.subrange(0, i as int));
    }
    assert(r@ =~= v@);
    r
}

/// A copy of an event.
pub fn copy_log(l: &CallLog) -> (r: CallLog)
    ensures
        r@ == l@,
{
    let topics = match &l.topics {
        Some(t) => Some(copy_topics(t)),
        None => None,
    };
    let data = match &l.data {
        Some(d) => Some(copy_bytes(d)),
        None => None,
    };
    CallLog { address: l.address, topics, data }
}

/// Appends to `logs` the events of `call_frame` and of its sub-calls, depth first.
pub fn extract_logs(call_frame: &CallFrame, logs: &mut Vec<CallLog>)
    ensures
        logs_view(final(logs)@) == logs_view(old(logs)@) + frame_logs(*call_frame),
    decreases *call_frame,
{
    let ghost start = logs_view(logs@);
    let mut i: usize = 0;
    while i < call_frame.logs.len()
        invariant
            i <= call_frame.logs@.len(),
            logs_view(logs@) == start + logs_view(call_frame.logs@.take(i as int)),
        decreases call_frame.logs@.len() - i,
    {
        let ghost before = logs_view(logs@);
        let l = copy_log(&call_frame.logs[i]);
        logs.push(l);
        proof {
            assert(logs_view(logs@) =~= before.push(l@));
            assert(logs_view(call_frame.logs@.take(i + 1)) =~= logs_view(call_frame.logs@.take(i as int)).push(call_frame.logs@[i as int]@));
        }
        i = i + 1;
    }
    proof {
        assert(call_frame.logs@.take(call_frame.logs@.len() as int) =~= call_frame.logs@);
        assert(calls_logs(call_frame.calls@, 0) =~= Seq::empty());
    }
    let mut j: usize = 0;
    while j < call_frame.calls.len()
        invariant
            j <= call_frame.calls@.len(),
            logs_view(logs@) == start + logs_view(call_frame.logs@) + calls_logs(call_frame.calls@, j as int),
        decreases call_frame.calls@.len() - j,
    {
        let ghost before = logs_view(logs@);
        proof {
            assert(decreases_to!(*call_frame => call_frame.calls));
            assert(decreases_to!(call_frame.calls => call_frame.calls@));
            assert(decreases_to!(call_frame.calls@ => call_frame.calls@[j as int]));
        }
        extract_logs(&call_frame.calls[j], logs);
        proof {
            assert(before + frame_logs(call_frame.calls@[j as int]) =~= start + logs_view(call_frame.logs@) + calls_logs(call_frame.calls@, j + 1));
        }
        j = j + 1;
    }
}

/// The known pools that a call and its sub-calls call, depth first: the
/// entry of `pools` for each target that has one.
pub open spec fn frame_pools<P>(f: CallFrame, pools: Map<Address, P>) -> Seq<P>
    decreases f,
{
    (match f.to {
        Some(a) => if pools.contains_key(a) { seq![pools[a]] } else { Seq::empty() },
        None => Seq::empty(),
    }) + calls_pools(f.calls@, f.calls@.len() as int, pools)
}

pub open spec fn calls_pools<P>(cs: Seq<CallFrame>, n: int, pools: Map<Address, P>) -> Seq<P>
    decreases cs, n,
{
    if n <= 0 || n > cs.len() {
        Seq::empty()
    } else {
        calls_pools(cs, n - 1, pools) + frame_pools(cs[n - 1], pools)
    }
}

/// Appends to `interactions` the pools that `call_frame` and its sub-calls
/// call, depth first (a pool once per call of it), as `pools_map` holds them.
pub fn get_pool_interactions(call_frame: &CallFrame, pools_map: &DashMap<Address, PoolKind>, interactions: &mut Vec<PoolKind>)
    ensures
        final(interactions)@ == old(interactions)@ + frame_pools(*call_frame, pool_entries(*pools_map)),
    decreases *call_frame,
{
    let ghost start = interactions@;
    match call_frame.to {
        Some(to_address) => {
            match pool_get(pools_map, &to_address) {
                Some(pool) => interactions.push(pool),
                None => {},
            }
        },
        None => {},
    }
    let ghost head = interactions@;
    proof {
        assert(calls_pools(call_frame.calls@, 0, pool_entries(*pools_map)) =~= Seq::<PoolKind>::empty());
    }
    let mut j: usize = 0;
    while j < call_frame.calls.len()
        invariant
            j <= call_frame.calls@.len(),
            interactions@ == head + calls_pools(call_frame.calls@, j as int, pool_entries(*pools_map)),
        decreases call_frame.calls@.len() - j,
    {
        let ghost before = interactions@;
        proof {
            assert(decreases_to!(*call_frame => call_frame.calls));
            assert(decreases_to!(call_frame.calls => call_frame.calls@));
            assert(decreases_to!(call_frame.calls@ => call_frame.calls@[j as int]));
        }
        get_pool_interactions(&call_frame.calls[j], pools_map, interactions);
        proof {
            assert(before + frame_pools(call_frame.calls@[j as int], pool_entries(*pools_map))
                =~= head + calls_pools(call_frame.calls@, j + 1, pool_entries(*pools_map)));
        }
        j = j + 1;
    }
    proof {
        assert(interactions@ =~= start + frame_pools(*call_frame, pool_entries(*pools_map)));
    }
}

} // verus!
