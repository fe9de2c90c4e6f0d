//! What preparing a device tree for a guest keeps and changes: the walk over the prepared
//! structure block meets the same nodes and properties as the walk over the unprepared one, and
//! reading the prepared tree gives what reading the unprepared one gave, but for the memory size and
//! the command line.
use vstd::prelude::*;
use vstd::string::StringSliceAdditionalSpecFns;
use crate::bits::{overwritten, be_bytes};
use crate::fdt::{
    walk_from, FdtEvent, be32, find_byte, begin_node, prop_step, end_node, spec_round4,
    lemma_find_byte_bounds, lemma_begin_node_advances, lemma_prop_step_advances, lemma_round4_bounds,
    guest_events, guest_prop, spec_initialize, spec_read_range, prop_bytes, FDT_BEGIN_NODE,
    FDT_END_NODE, FDT_PROP, FDT_END, lemma_be_bytes_len, prop_len, parse_events, parse_prop, ParseModel,
    spec_parse, spec_value_str, lemma_parse_events_step, lemma_be_bytes_value, be64, Fdt,
};

verus! {

/// Whether the events `evs` hold a property at byte `off` of the structure block.
pub open spec fn has_prop_at(evs: Seq<FdtEvent>, off: int) -> bool {
    exists|k: int| 0 <= k < evs.len() && (#[trigger] evs[k] matches FdtEvent::Prop { offset, .. } && offset == off)
}

/// Whether `n1` and `n2` hold the same bytes from `from` up to `to`.
pub open spec fn agree(n1: Seq<u8>, n2: Seq<u8>, from: int, to: int) -> bool {
    &&& n1.len() == n2.len()
    &&& forall|k: int| from <= k < to && 0 <= k < n1.len() ==> #[trigger] n1[k] == n2[k]
}

proof fn lemma_agree_subrange(n1: Seq<u8>, n2: Seq<u8>, from: int, to: int, a: int, b: int)
    requires
        agree(n1, n2, from, to),
        from <= a <= b <= to,
        b <= n1.len(),
        0 <= a,
    ensures
        n1.subrange(a, b) == n2.subrange(a, b),
{
    assert(n1.subrange(a, b) =~= n2.subrange(a, b));
}

proof fn lemma_find_agree(n1: Seq<u8>, n2: Seq<u8>, from: int, b: u8, to: int)
    requires
        0 <= from,
        agree(n1, n2, from, to),
        find_byte(n1, from, b) < to || to >= n1.len(),
    ensures
        find_byte(n2, from, b) == find_byte(n1, from, b),
    decreases n1.len() - from,
{
    if from < n1.len() {
        lemma_find_byte_bounds(n1, from, b);
        if n1[from] != b {
            lemma_find_agree(n1, n2, from + 1, b, to);
        }
    }
}

/// Every property the walk from `i` meets lies at a token position at or after `i`, whole
/// within the block.
pub proof fn lemma_walk_offsets(n: Seq<u8>, s: Seq<u8>, i: int, p: Seq<u8>, u: Seq<Option<u64>>)
    requires
        0 <= i,
        walk_from(n, s, i, p, u) is Some,
    ensures
        forall|k: int| 0 <= k < walk_from(n, s, i, p, u)->0.len() ==>
            (#[trigger] walk_from(n, s, i, p, u)->0[k] matches FdtEvent::Prop { offset, .. } ==> {
                &&& i <= offset
                &&& offset + 12 + spec_round4(be32(n, offset + 4) as int) <= n.len()
            }),
    decreases n.len() + 3 - i,
{
    reveal(walk_from);
    let evs = walk_from(n, s, i, p, u)->0;
    if i < n.len() && i % 4 == 0 && i + 4 <= n.len() {
        let token = be32(n, i);
        if token == FDT_BEGIN_NODE {
            lemma_begin_node_advances(n, i, p, u);
            let (j, p2, u2) = begin_node(n, i, p, u)->0;
            lemma_walk_offsets(n, s, j, p2, u2);
            let rest = walk_from(n, s, j, p2, u2)->0;
            assert forall|k: int| 0 <= k < evs.len() implies (#[trigger] evs[k] matches FdtEvent::Prop { offset, .. } ==> {
                &&& i <= offset
                &&& offset + 12 + spec_round4(be32(n, offset + 4) as int) <= n.len()
            }) by {
                if k > 0 {
                    assert(evs[k] == rest[k - 1]);
                }
            }
        } else if token == FDT_END_NODE {
            let p2 = end_node(p)->0;
            let u2 = if u.len() > 0 { u.drop_last() } else { u };
            lemma_walk_offsets(n, s, i + 4, p2, u2);
        } else if token == FDT_PROP {
            lemma_prop_step_advances(n, s, i);
            let (j, name) = prop_step(n, s, i)->0;
            lemma_walk_offsets(n, s, j, p, u);
            let rest = walk_from(n, s, j, p, u)->0;
            assert forall|k: int| 0 <= k < evs.len() implies (#[trigger] evs[k] matches FdtEvent::Prop { offset, .. } ==> {
                &&& i <= offset
                &&& offset + 12 + spec_round4(be32(n, offset + 4) as int) <= n.len()
            }) by {
                if k > 0 {
                    assert(evs[k] == rest[k - 1]);
                }
            }
        } else if token != FDT_END {
            lemma_walk_offsets(n, s, i + 4, p, u);
        }
    }
}

/// The walk from `i` reads no byte before `i`: blocks that agree from `i` on give the same
/// walk.
pub proof fn lemma_walk_suffix(n1: Seq<u8>, n2: Seq<u8>, s: Seq<u8>, i: int, p: Seq<u8>, u: Seq<Option<u64>>)
    requires
        0 <= i,
        agree(n1, n2, i, n1.len() as int),
    ensures
        walk_from(n2, s, i, p, u) == walk_from(n1, s, i, p, u),
    decreases n1.len() + 3 - i,
{
    reveal(walk_from);
    if i < n1.len() && i % 4 == 0 && i + 4 <= n1.len() {
        lemma_agree_subrange(n1, n2, i, n1.len() as int, i, i + 4);
        let token = be32(n1, i);
        assert(be32(n2, i) == token);
        if token == FDT_BEGIN_NODE {
            lemma_find_agree(n1, n2, i + 4, 0, n1.len() as int);
            let nul = find_byte(n1, i + 4, 0);
            lemma_find_byte_bounds(n1, i + 4, 0);
            if nul <= n1.len() {
                lemma_agree_subrange(n1, n2, i, n1.len() as int, i + 4, nul);
            }
            assert(begin_node(n2, i, p, u) == begin_node(n1, i, p, u));
            lemma_begin_node_advances(n1, i, p, u);
            match begin_node(n1, i, p, u) {
                Some((j, p2, u2)) => {
                    lemma_walk_suffix(n1, n2, s, j, p2, u2);
                },
                None => {},
            }
        } else if token == FDT_END_NODE {
            let p2 = end_node(p);
            match p2 {
                Some(pp) => {
                    lemma_walk_suffix(n1, n2, s, i + 4, pp, if u.len() > 0 { u.drop_last() } else { u });
                },
                None => {},
            }
        } else if token == FDT_PROP {
            if i + 8 <= n1.len() {
                lemma_agree_subrange(n1, n2, i, n1.len() as int, i + 4, i + 8);
            }
            if i + 12 <= n1.len() {
                lemma_agree_subrange(n1, n2, i, n1.len() as int, i + 8, i + 12);
            }
            assert(prop_step(n2, s, i) == prop_step(n1, s, i));
            lemma_prop_step_advances(n1, s, i);
            match prop_step(n1, s, i) {
                Some((j, name)) => {
                    lemma_walk_suffix(n1, n2, s, j, p, u);
                },
                None => {},
            }
        } else if token != FDT_END {
            lemma_walk_suffix(n1, n2, s, i + 4, p, u);
        }
    }
}


proof fn lemma_overwritten_agree(n1: Seq<u8>, at: int, bytes: Seq<u8>)
    requires
        0 <= at,
        at + bytes.len() <= n1.len(),
    ensures
        overwritten(n1, at, bytes).len() == n1.len(),
        agree(n1, overwritten(n1, at, bytes), 0, at),
        agree(n1, overwritten(n1, at, bytes), at + bytes.len(), n1.len() as int),
{
    let n2 = overwritten(n1, at, bytes);
    assert(n2.len() == n1.len());
    assert forall|k: int| 0 <= k < at && 0 <= k < n1.len() implies #[trigger] n1[k] == n2[k] by {
        assert(n2[k] == n1.subrange(0, at)[k]);
    }
    assert forall|k: int| at + bytes.len() <= k < n1.len() && 0 <= k < n1.len() implies #[trigger] n1[k] == n2[k] by {
        let m = at + bytes.len();
        assert(n2[k] == n1.subrange(m, n1.len() as int)[k - m]);
    }
}

proof fn lemma_has_prop_tail(evs: Seq<FdtEvent>, rest: Seq<FdtEvent>, ev: FdtEvent, off: int)
    requires
        evs == seq![ev] + rest,
        has_prop_at(evs, off),
        !(ev matches FdtEvent::Prop { offset, .. } && offset == off),
    ensures
        has_prop_at(rest, off),
{
    let k = choose|k: int| 0 <= k < evs.len() && (#[trigger] evs[k] matches FdtEvent::Prop { offset, .. } && offset == off);
    assert(k > 0);
    assert(rest[k - 1] == evs[k]);
}

/// Writing within the value of a property the walk meets does not change the walk.
pub proof fn lemma_walk_value_edit(n1: Seq<u8>, s: Seq<u8>, i: int, p: Seq<u8>, u: Seq<Option<u64>>, off: int, bytes: Seq<u8>)
    requires
        0 <= i,
        walk_from(n1, s, i, p, u) is Some,
        has_prop_at(walk_from(n1, s, i, p, u)->0, off),
        bytes.len() <= spec_round4(be32(n1, off + 4) as int),
    ensures
        walk_from(overwritten(n1, off + 12, bytes), s, i, p, u) == walk_from(n1, s, i, p, u),
    decreases n1.len() + 3 - i,
{
    reveal(walk_from);
    let evs = walk_from(n1, s, i, p, u)->0;
    lemma_walk_offsets(n1, s, i, p, u);
    let k0 = choose|k: int| 0 <= k < evs.len() && (#[trigger] evs[k] matches FdtEvent::Prop { offset, .. } && offset == off);
    assert(evs[k0] matches FdtEvent::Prop { .. });
    assert(i <= off && off + 12 + spec_round4(be32(n1, off + 4) as int) <= n1.len());
    let n2 = overwritten(n1, off + 12, bytes);
    lemma_overwritten_agree(n1, off + 12, bytes);
    lemma_round4_bounds(be32(n1, off + 4) as int);
    assert(i < n1.len() && i % 4 == 0 && i + 4 <= n1.len());
    lemma_agree_subrange(n1, n2, 0, off + 12, i, i + 4);
    let token = be32(n1, i);
    assert(be32(n2, i) == token);
    if token == FDT_BEGIN_NODE {
        lemma_begin_node_advances(n1, i, p, u);
        let (j, p2, u2) = begin_node(n1, i, p, u)->0;
        let rest = walk_from(n1, s, j, p2, u2)->0;
        let ev = FdtEvent::Node { path: p2, units: u2 };
        assert(evs == seq![ev] + rest);
        lemma_has_prop_tail(evs, rest, ev, off);
        lemma_walk_offsets(n1, s, j, p2, u2);
        let k1 = choose|k: int| 0 <= k < rest.len() && (#[trigger] rest[k] matches FdtEvent::Prop { offset, .. } && offset == off);
        assert(rest[k1] matches FdtEvent::Prop { .. });
        assert(j <= off);
        let nul = find_byte(n1, i + 4, 0);
        lemma_find_byte_bounds(n1, i + 4, 0);
        lemma_round4_bounds(nul);
        lemma_find_agree(n1, n2, i + 4, 0, off + 12);
        lemma_agree_subrange(n1, n2, 0, off + 12, i + 4, nul);
        assert(begin_node(n2, i, p, u) == begin_node(n1, i, p, u));
        lemma_walk_value_edit(n1, s, j, p2, u2, off, bytes);
    } else if token == FDT_END_NODE {
        let p2 = end_node(p)->0;
        let u2 = if u.len() > 0 { u.drop_last() } else { u };
        lemma_walk_value_edit(n1, s, i + 4, p2, u2, off, bytes);
    } else if token == FDT_PROP {
        lemma_agree_subrange(n1, n2, 0, off + 12, i + 4, i + 8);
        lemma_agree_subrange(n1, n2, 0, off + 12, i + 8, i + 12);
        assert(prop_step(n2, s, i) == prop_step(n1, s, i));
        lemma_prop_step_advances(n1, s, i);
        let (j, name) = prop_step(n1, s, i)->0;
        let rest = walk_from(n1, s, j, p, u)->0;
        let ev = FdtEvent::Prop { path: p, units: u, name, offset: i };
        assert(evs == seq![ev] + rest);
        if off == i {
            assert(agree(n1, n2, j, n1.len() as int));
            lemma_walk_suffix(n1, n2, s, j, p, u);
        } else {
            lemma_has_prop_tail(evs, rest, ev, off);
            lemma_walk_value_edit(n1, s, j, p, u, off, bytes);
        }
    } else {
        assert(token != FDT_END);
        lemma_walk_value_edit(n1, s, i + 4, p, u, off, bytes);
    }
}

/// The properties a walk meets come in order, each after the end of the one before.
pub proof fn lemma_walk_ordered(n: Seq<u8>, s: Seq<u8>, i: int, p: Seq<u8>, u: Seq<Option<u64>>)
    requires
        0 <= i,
        walk_from(n, s, i, p, u) is Some,
    ensures
        ({
            let evs = walk_from(n, s, i, p, u)->0;
            forall|k1: int, k2: int| 0 <= k1 < k2 < evs.len() ==>
                ((#[trigger] evs[k1]) is Prop && (#[trigger] evs[k2]) is Prop
                    ==> evs[k2]->offset >= evs[k1]->offset + 12 + spec_round4(be32(n, evs[k1]->offset + 4) as int))
        }),
    decreases n.len() + 3 - i,
{
    reveal(walk_from);
    let evs = walk_from(n, s, i, p, u)->0;
    if i < n.len() && i % 4 == 0 && i + 4 <= n.len() {
        let token = be32(n, i);
        if token == FDT_BEGIN_NODE {
            lemma_begin_node_advances(n, i, p, u);
            let (j, p2, u2) = begin_node(n, i, p, u)->0;
            lemma_walk_ordered(n, s, j, p2, u2);
            let rest = walk_from(n, s, j, p2, u2)->0;
            assert(evs == seq![FdtEvent::Node { path: p2, units: u2 }] + rest);
            assert forall|k1: int, k2: int|
                0 <= k1 < k2 < evs.len() && (#[trigger] evs[k1]) is Prop && (#[trigger] evs[k2]) is Prop implies
                    evs[k2]->offset >= evs[k1]->offset + 12 + spec_round4(be32(n, evs[k1]->offset + 4) as int) by {
                if k1 > 0 {
                    assert(evs[k1] == rest[k1 - 1]);
                    assert(evs[k2] == rest[k2 - 1]);
                } else {
                    assert(evs[0] == FdtEvent::Node { path: p2, units: u2 });
                }
            }
        } else if token == FDT_END_NODE {
            let p2 = end_node(p)->0;
            let u2 = if u.len() > 0 { u.drop_last() } else { u };
            lemma_walk_ordered(n, s, i + 4, p2, u2);
        } else if token == FDT_PROP {
            lemma_prop_step_advances(n, s, i);
            let (j, name) = prop_step(n, s, i)->0;
            lemma_walk_ordered(n, s, j, p, u);
            lemma_walk_offsets(n, s, j, p, u);
            let rest = walk_from(n, s, j, p, u)->0;
            let ev = FdtEvent::Prop { path: p, units: u, name, offset: i };
            assert(evs == seq![ev] + rest);
            assert(j == i + 12 + spec_round4(be32(n, i + 4) as int));
            assert forall|k1: int, k2: int|
                0 <= k1 < k2 < evs.len() && (#[trigger] evs[k1]) is Prop && (#[trigger] evs[k2]) is Prop implies
                    evs[k2]->offset >= evs[k1]->offset + 12 + spec_round4(be32(n, evs[k1]->offset + 4) as int) by {
                assert(evs[k2] == rest[k2 - 1]);
                if k1 > 0 {
                    assert(evs[k1] == rest[k1 - 1]);
                } else {
                    assert(evs[0] == ev);
                    if let FdtEvent::Prop { offset: o2, .. } = rest[k2 - 1] {
                        assert(j <= o2);
                    }
                }
            }
        } else if token != FDT_END {
            lemma_walk_ordered(n, s, i + 4, p, u);
        }
    }
}

/// Whether `cur` holds the header words (token, length, name) of every property of `evs` as
/// `nodes` does.
pub open spec fn headers_kept(cur: Seq<u8>, nodes: Seq<u8>, evs: Seq<FdtEvent>) -> bool {
    &&& cur.len() == nodes.len()
    &&& forall|k: int| 0 <= k < evs.len() ==> (#[trigger] evs[k] matches FdtEvent::Prop { offset, .. }
        ==> cur.subrange(offset, offset + 12) == nodes.subrange(offset, offset + 12))
}

/// Preparing the first `n` events for the guest keeps the walk and the property headers.
proof fn lemma_guest_events_keep_walk(nodes: Seq<u8>, s: Seq<u8>, size: u64, bootargs: Seq<u8>, evs: Seq<FdtEvent>, n: int)
    requires
        walk_from(nodes, s, 0, Seq::empty(), Seq::empty()) == Some(evs),
        0 <= n <= evs.len(),
        guest_events(evs, nodes, size, bootargs, n) is Some,
    ensures
        walk_from(guest_events(evs, nodes, size, bootargs, n)->0, s, 0, Seq::empty(), Seq::empty()) == Some(evs),
        headers_kept(guest_events(evs, nodes, size, bootargs, n)->0, nodes, evs),
    decreases n,
{
    reveal(guest_events);
    lemma_walk_offsets(nodes, s, 0, Seq::empty(), Seq::empty());
    lemma_walk_ordered(nodes, s, 0, Seq::empty(), Seq::empty());
    if n == 0 {
        assert(headers_kept(nodes, nodes, evs));
    } else {
        lemma_guest_events_keep_walk(nodes, s, size, bootargs, evs, n - 1);
        let cur = guest_events(evs, nodes, size, bootargs, n - 1)->0;
        match evs[n - 1] {
            FdtEvent::Node { .. } => {},
            FdtEvent::Prop { path, name, offset, .. } => {
                let off = offset;
                let pb = prop_bytes(nodes, off);
                assert(evs[n - 1] matches FdtEvent::Prop { .. });
                assert(0 <= off && off + 12 + spec_round4(be32(nodes, off + 4) as int) <= nodes.len());
                lemma_round4_bounds(be32(nodes, off + 4) as int);
                assert(pb.len() == 12 + spec_round4(be32(nodes, off + 4) as int));
                assert(cur.subrange(off, off + 12) == nodes.subrange(off, off + 12));
                assert(cur.subrange(off + 4, off + 8) =~= cur.subrange(off, off + 12).subrange(4, 8));
                assert(nodes.subrange(off + 4, off + 8) =~= nodes.subrange(off, off + 12).subrange(4, 8));
                assert(be32(cur, off + 4) == be32(nodes, off + 4));
                assert(has_prop_at(evs, off));
                let next = guest_events(evs, nodes, size, bootargs, n)->0;
                if next != cur {
                    let bytes = if path == "/chosen".spec_bytes() && name == "bootargs".spec_bytes() {
                        bootargs
                    } else {
                        be_bytes((spec_read_range(pb)->0).0 as nat, 8) + be_bytes(size as nat, 8)
                    };
                    if !(path == "/chosen".spec_bytes() && name == "bootargs".spec_bytes()) {
                        lemma_be_bytes_len((spec_read_range(pb)->0).0 as nat, 8);
                        lemma_be_bytes_len(size as nat, 8);
                        assert(pb.subrange(4, 8) =~= nodes.subrange(off + 4, off + 8));
                        assert(prop_len(pb) == 16);
                    }
                    assert(next == overwritten(cur, off + 12, bytes));
                    assert(bytes.len() <= spec_round4(be32(cur, off + 4) as int));
                    lemma_walk_value_edit(cur, s, 0, Seq::empty(), Seq::empty(), off, bytes);
                    lemma_overwritten_agree(cur, off + 12, bytes);
                    assert forall|k: int| 0 <= k < evs.len() implies (#[trigger] evs[k] matches FdtEvent::Prop { offset, .. }
                        ==> next.subrange(offset, offset + 12) == nodes.subrange(offset, offset + 12)) by {
                        if let FdtEvent::Prop { offset: o, .. } = evs[k] {
                            assert(cur.subrange(o, o + 12) == nodes.subrange(o, o + 12));
                            assert(o + 12 <= nodes.len());
                            if k < n - 1 {
                                assert(o + 12 <= off);
                                lemma_agree_subrange(cur, next, 0, off + 12, o, o + 12);
                            } else if k > n - 1 {
                                assert(o >= off + 12 + bytes.len());
                                lemma_agree_subrange(cur, next, off + 12 + bytes.len(), nodes.len() as int, o, o + 12);
                            } else {
                                lemma_agree_subrange(cur, next, 0, off + 12, o, o + 12);
                            }
                        }
                    }
                }
            },
        }
    }
}

/// Preparing a device tree for a guest keeps its structure: the walk over the prepared
/// structure block meets the same nodes and properties, in the same order, at the same places,
/// as the walk over the unprepared one.
pub proof fn lemma_initialize_keeps_walk(nodes: Seq<u8>, strings: Seq<u8>, size: u64, bootargs: Seq<u8>)
    requires
        spec_initialize(nodes, strings, size, bootargs) is Some,
    ensures
        walk_from(spec_initialize(nodes, strings, size, bootargs)->0, strings, 0, Seq::empty(), Seq::empty())
            == walk_from(nodes, strings, 0, Seq::empty(), Seq::empty()),
{
    let evs = walk_from(nodes, strings, 0, Seq::empty(), Seq::empty())->0;
    lemma_guest_events_keep_walk(nodes, strings, size, bootargs, evs, evs.len() as int);
}

/// The bytes of the property named `name` at byte `offset` of `nodes`, in the node at `path`,
/// once prepared for a guest with `size` bytes of memory and the command line `bootargs`: the
/// command line written over the start of `/chosen`'s `bootargs` value, and `/memory`'s `reg`
/// rewritten to the same offset with the guest's size; other properties as they were.
pub open spec fn prepared_prop(nodes: Seq<u8>, path: Seq<u8>, name: Seq<u8>, offset: int, size: u64, bootargs: Seq<u8>) -> Seq<u8> {
    let p = prop_bytes(nodes, offset);
    if path == "/chosen".spec_bytes() && name == "bootargs".spec_bytes() {
        overwritten(p, 12, bootargs)
    } else if path == "/memory".spec_bytes() && name == "reg".spec_bytes() {
        overwritten(p, 12, be_bytes((spec_read_range(p)->0).0 as nat, 8) + be_bytes(size as nat, 8))
    } else {
        p
    }
}

/// Whether `cur` holds, for each property of `evs`, the prepared bytes where it is among the
/// first `n` events and the bytes of `nodes` elsewhere.
pub open spec fn props_prepared(cur: Seq<u8>, nodes: Seq<u8>, evs: Seq<FdtEvent>, n: int, size: u64, bootargs: Seq<u8>) -> bool {
    &&& cur.len() == nodes.len()
    &&& forall|k: int| 0 <= k < evs.len() ==> (#[trigger] evs[k] matches FdtEvent::Prop { path, name, offset, .. }
        ==> prop_bytes(cur, offset) == if k < n {
            prepared_prop(nodes, path, name, offset, size, bootargs)
        } else {
            prop_bytes(nodes, offset)
        })
}

/// `s` with `bytes` written at `at` and read back from `from` to `to`: unchanged where the
/// range misses the write, and the write itself where the range starts 12 bytes before it.
proof fn lemma_overwritten_window(s: Seq<u8>, at: int, bytes: Seq<u8>, from: int, to: int)
    requires
        0 <= at,
        at + bytes.len() <= s.len(),
        0 <= from <= to <= s.len(),
    ensures
        to <= at || from >= at + bytes.len() ==> overwritten(s, at, bytes).subrange(from, to) == s.subrange(from, to),
        from + 12 == at && at + bytes.len() <= to ==> overwritten(s, at, bytes).subrange(from, to)
            == overwritten(s.subrange(from, to), 12, bytes),
{
    let n2 = overwritten(s, at, bytes);
    lemma_overwritten_agree(s, at, bytes);
    if to <= at {
        lemma_agree_subrange(s, n2, 0, at, from, to);
    }
    if from >= at + bytes.len() {
        lemma_agree_subrange(s, n2, at + bytes.len(), s.len() as int, from, to);
    }
    if from + 12 == at && at + bytes.len() <= to {
        assert(n2.subrange(from, to) =~= overwritten(s.subrange(from, to), 12, bytes));
    }
}

/// Preparing the first `n` events for the guest leaves each property's bytes prepared or
/// untouched, as `props_prepared` says.
#[verifier::spinoff_prover]
#[verifier::rlimit(60)]
proof fn lemma_guest_events_props(nodes: Seq<u8>, s: Seq<u8>, size: u64, bootargs: Seq<u8>, evs: Seq<FdtEvent>, n: int)
    requires
        walk_from(nodes, s, 0, Seq::empty(), Seq::empty()) == Some(evs),
        0 <= n <= evs.len(),
        guest_events(evs, nodes, size, bootargs, n) is Some,
    ensures
        props_prepared(guest_events(evs, nodes, size, bootargs, n)->0, nodes, evs, n, size, bootargs),
    decreases n,
{
    reveal(guest_events);
    lemma_walk_offsets(nodes, s, 0, Seq::empty(), Seq::empty());
    lemma_walk_ordered(nodes, s, 0, Seq::empty(), Seq::empty());
    if n == 0 {
        assert(props_prepared(nodes, nodes, evs, 0, size, bootargs));
    } else {
        lemma_guest_events_props(nodes, s, size, bootargs, evs, n - 1);
        lemma_guest_events_keep_walk(nodes, s, size, bootargs, evs, n - 1);
        lemma_guest_events_keep_walk(nodes, s, size, bootargs, evs, n);
        let cur = guest_events(evs, nodes, size, bootargs, n - 1)->0;
        let next = guest_events(evs, nodes, size, bootargs, n)->0;
        match evs[n - 1] {
            FdtEvent::Node { .. } => {
                assert(next == cur);
            },
            FdtEvent::Prop { path, name, offset, .. } => {
                let off = offset;
                let pb = prop_bytes(nodes, off);
                assert(evs[n - 1] matches FdtEvent::Prop { .. });
                assert(0 <= off && off + 12 + spec_round4(be32(nodes, off + 4) as int) <= nodes.len());
                lemma_round4_bounds(be32(nodes, off + 4) as int);
                let len_off = 12 + spec_round4(be32(nodes, off + 4) as int);
                assert(prop_bytes(cur, off) == pb);
                let target = (path == "/chosen".spec_bytes() && name == "bootargs".spec_bytes())
                    || (path == "/memory".spec_bytes() && name == "reg".spec_bytes());
                if !target {
                    assert(next == cur);
                    assert(prepared_prop(nodes, path, name, off, size, bootargs) == pb);
                    assert(props_prepared(next, nodes, evs, n, size, bootargs));
                } else {
                    let bytes = if path == "/chosen".spec_bytes() && name == "bootargs".spec_bytes() {
                        bootargs
                    } else {
                        be_bytes((spec_read_range(pb)->0).0 as nat, 8) + be_bytes(size as nat, 8)
                    };
                    if !(path == "/chosen".spec_bytes() && name == "bootargs".spec_bytes()) {
                        lemma_be_bytes_len((spec_read_range(pb)->0).0 as nat, 8);
                        lemma_be_bytes_len(size as nat, 8);
                        assert(pb.subrange(4, 8) =~= nodes.subrange(off + 4, off + 8));
                        assert(prop_len(pb) == 16);
                    }
                    assert(next == overwritten(cur, off + 12, bytes));
                    assert(bytes.len() <= spec_round4(be32(nodes, off + 4) as int));
                    assert forall|k: int| 0 <= k < evs.len() implies (#[trigger] evs[k] matches FdtEvent::Prop { path, name, offset, .. }
                        ==> prop_bytes(next, offset) == if k < n {
                            prepared_prop(nodes, path, name, offset, size, bootargs)
                        } else {
                            prop_bytes(nodes, offset)
                        }) by {
                        if let FdtEvent::Prop { offset: o, .. } = evs[k] {
                            assert(cur.subrange(o, o + 12) == nodes.subrange(o, o + 12));
                            assert(next.subrange(o, o + 12) == nodes.subrange(o, o + 12));
                            assert(cur.subrange(o + 4, o + 8) =~= cur.subrange(o, o + 12).subrange(4, 8));
                            assert(next.subrange(o + 4, o + 8) =~= next.subrange(o, o + 12).subrange(4, 8));
                            assert(nodes.subrange(o + 4, o + 8) =~= nodes.subrange(o, o + 12).subrange(4, 8));
                            assert(be32(cur, o + 4) == be32(nodes, o + 4));
                            assert(be32(next, o + 4) == be32(nodes, o + 4));
                            let lo = 12 + spec_round4(be32(nodes, o + 4) as int);
                            assert(o + lo <= nodes.len());
                            lemma_overwritten_window(cur, off + 12, bytes, o, o + lo);
                            if k < n - 1 {
                                assert(o + lo <= off);
                            } else if k > n - 1 {
                                assert(o >= off + len_off);
                            } else {
                                assert(o == off);
                            }
                        }
                    }
                }
            },
        }
    }
}

/// Whether `ev` is `/chosen`'s `bootargs` property.
pub open spec fn is_bootargs_prop(ev: FdtEvent) -> bool {
    match ev {
        FdtEvent::Prop { path, name, .. } => path == "/chosen".spec_bytes() && name == "bootargs".spec_bytes(),
        FdtEvent::Node { .. } => false,
    }
}

/// Whether `ev` is `/memory`'s `reg` property.
pub open spec fn is_memory_prop(ev: FdtEvent) -> bool {
    match ev {
        FdtEvent::Prop { path, name, .. } => path == "/memory".spec_bytes() && name == "reg".spec_bytes(),
        FdtEvent::Node { .. } => false,
    }
}

/// The prepared bytes of the property `ev` (nothing for a node).
pub open spec fn prepared_of(ev: FdtEvent, nodes: Seq<u8>, size: u64, bootargs: Seq<u8>) -> Seq<u8> {
    match ev {
        FdtEvent::Prop { path, name, offset, .. } => prepared_prop(nodes, path, name, offset, size, bootargs),
        FdtEvent::Node { .. } => Seq::empty(),
    }
}

/// The command line the prepared `bootargs` properties among the first `n` events give.
pub open spec fn prepared_cmdline(evs: Seq<FdtEvent>, nodes: Seq<u8>, size: u64, bootargs: Seq<u8>, n: int) -> Seq<u8>
    decreases n,
{
    if n <= 0 {
        Seq::empty()
    } else {
        prepared_cmdline(evs, nodes, size, bootargs, n - 1) + if is_bootargs_prop(evs[n - 1]) {
            spec_value_str(prepared_of(evs[n - 1], nodes, size, bootargs))->0
        } else {
            Seq::empty()
        }
    }
}

/// Whether a `/memory` `reg` property is among the first `n` events.
pub open spec fn memory_seen(evs: Seq<FdtEvent>, n: int) -> bool {
    exists|k: int| 0 <= k < n && is_memory_prop(#[trigger] evs[k])
}

/// Whether every prepared `bootargs` property still holds printable text.
pub open spec fn cmdline_printable(evs: Seq<FdtEvent>, nodes: Seq<u8>, size: u64, bootargs: Seq<u8>) -> bool {
    forall|k: int| 0 <= k < evs.len() && is_bootargs_prop(#[trigger] evs[k])
        ==> spec_value_str(prepared_of(evs[k], nodes, size, bootargs)) is Some
}

/// What the reading model becomes once the first `n` events are read from the prepared block,
/// given what reading them from the unprepared block gave: the memory size is the guest's once a
/// `/memory` `reg` property has been read, and the command line is the prepared one.
pub open spec fn prepared_model(st: ParseModel, evs: Seq<FdtEvent>, nodes: Seq<u8>, size: u64, bootargs: Seq<u8>, n: int) -> ParseModel {
    ParseModel {
        memory: if memory_seen(evs, n) { (st.memory.0, size) } else { st.memory },
        bootargs: prepared_cmdline(evs, nodes, size, bootargs, n),
        ..st
    }
}

/// Reading a property other than the command line and the memory range does not look at, and
/// keeps, the memory range and the command line read so far (as long as its length is kept).
proof fn lemma_parse_prop_frame(
    st: ParseModel,
    mm: (u64, u64),
    bb: Seq<u8>,
    path: Seq<u8>,
    units: Seq<Option<u64>>,
    name: Seq<u8>,
    p: Seq<u8>,
)
    requires
        bb.len() == st.bootargs.len(),
        !(path == "/chosen".spec_bytes() && name == "bootargs".spec_bytes()),
        !(path == "/memory".spec_bytes() && name == "reg".spec_bytes()),
    ensures
        parse_prop(ParseModel { memory: mm, bootargs: bb, ..st }, path, units, name, p) == match parse_prop(st, path, units, name, p) {
            Some(s2) => Some(ParseModel { memory: mm, bootargs: bb, ..s2 }),
            None => None,
        },
        parse_prop(st, path, units, name, p) matches Some(s2) ==> s2.memory == st.memory && s2.bootargs == st.bootargs,
{
    reveal(parse_prop);
}

/// The prepared memory range reads as the unprepared one's offset and the guest's size.
proof fn lemma_prepared_memory(p: Seq<u8>, size: u64)
    requires
        spec_read_range(p) is Some,
        p.len() >= 28,
    ensures
        spec_read_range(overwritten(p, 12, be_bytes((spec_read_range(p)->0).0 as nat, 8) + be_bytes(size as nat, 8)))
            == Some(((spec_read_range(p)->0).0, size)),
{
    let a = (spec_read_range(p)->0).0;
    let ba = be_bytes(a as nat, 8);
    let bs = be_bytes(size as nat, 8);
    lemma_be_bytes_len(a as nat, 8);
    lemma_be_bytes_len(size as nat, 8);
    vstd::arithmetic::power2::lemma2_to64();
    lemma_be_bytes_value(a as nat, 8);
    lemma_be_bytes_value(size as nat, 8);
    let q = overwritten(p, 12, ba + bs);
    assert(q.subrange(4, 8) =~= p.subrange(4, 8));
    assert(q.subrange(12, 20) =~= ba);
    assert(q.subrange(20, 28) =~= bs);
    assert(be64(q, 12) == a);
    assert(be64(q, 20) == size);
}

/// Writing over a property's value keeps the length of its text.
proof fn lemma_prepared_value_len(p: Seq<u8>, bytes: Seq<u8>)
    requires
        12 + bytes.len() <= p.len(),
        12 + prop_len(p) <= p.len(),
        spec_value_str(p) is Some,
        spec_value_str(overwritten(p, 12, bytes)) is Some,
    ensures
        (spec_value_str(overwritten(p, 12, bytes))->0).len() == (spec_value_str(p)->0).len(),
{
    let q = overwritten(p, 12, bytes);
    assert(q.subrange(4, 8) =~= p.subrange(4, 8));
    assert(prop_len(q) == prop_len(p));
}

/// The names the reading model tells apart are different byte strings.
proof fn lemma_names_differ()
    ensures
        "bootargs".spec_bytes() != "linux,initrd-end".spec_bytes(),
        "bootargs".spec_bytes() != "linux,initrd-start".spec_bytes(),
        "/memory".spec_bytes() != "/chosen".spec_bytes(),
{
    broadcast use vstd::string::is_ascii_spec_bytes;

    reveal_strlit("bootargs");
    reveal_strlit("linux,initrd-end");
    reveal_strlit("linux,initrd-start");
    reveal_strlit("/memory");
    reveal_strlit("/chosen");
    assert(vstd::string::is_ascii("bootargs"));
    assert(vstd::string::is_ascii("linux,initrd-end"));
    assert(vstd::string::is_ascii("linux,initrd-start"));
    assert(vstd::string::is_ascii("/memory"));
    assert(vstd::string::is_ascii("/chosen"));
    assert("bootargs".spec_bytes().len() == 8);
    assert("linux,initrd-end".spec_bytes().len() == 16);
    assert("linux,initrd-start".spec_bytes().len() == 18);
    assert("/memory".spec_bytes()[1] == 109);
    assert("/chosen".spec_bytes()[1] == 99);
}

/// Whether a `/memory` `reg` property is among the first `n` events: one among the first
/// `n - 1`, or the last.
proof fn lemma_memory_seen_step(evs: Seq<FdtEvent>, n: int)
    requires
        1 <= n <= evs.len(),
    ensures
        memory_seen(evs, n) == (memory_seen(evs, n - 1) || is_memory_prop(evs[n - 1])),
{
    if is_memory_prop(evs[n - 1]) {
        assert(is_memory_prop(evs[n - 1]));
    }
    if memory_seen(evs, n) && !is_memory_prop(evs[n - 1]) {
        let k = choose|k: int| 0 <= k < n && is_memory_prop(#[trigger] evs[k]);
        assert(k < n - 1);
        assert(memory_seen(evs, n - 1));
    }
    if memory_seen(evs, n - 1) {
        let k = choose|k: int| 0 <= k < n - 1 && is_memory_prop(#[trigger] evs[k]);
        assert(memory_seen(evs, n));
    }
}

/// One step of `lemma_parse_prepared`: reading event `n - 1`.
#[verifier::spinoff_prover]
proof fn lemma_parse_prepared_step(nodes: Seq<u8>, nodes2: Seq<u8>, evs: Seq<FdtEvent>, size: u64, bootargs: Seq<u8>, n: int)
    requires
        1 <= n <= evs.len(),
        parse_events(evs, nodes, n) is Some,
        parse_events(evs, nodes, n - 1) is Some,
        parse_events(evs, nodes2, n - 1) == Some(prepared_model(parse_events(evs, nodes, n - 1)->0, evs, nodes, size, bootargs, n - 1)),
        prepared_cmdline(evs, nodes, size, bootargs, n - 1).len() == (parse_events(evs, nodes, n - 1)->0).bootargs.len(),
        parse_events(evs, nodes, n) == match evs[n - 1] {
            FdtEvent::Node { .. } => parse_events(evs, nodes, n - 1),
            FdtEvent::Prop { path, units, name, offset } => parse_prop(parse_events(evs, nodes, n - 1)->0, path, units, name, prop_bytes(nodes, offset)),
        },
        parse_events(evs, nodes2, n) == match evs[n - 1] {
            FdtEvent::Node { .. } => parse_events(evs, nodes2, n - 1),
            FdtEvent::Prop { path, units, name, offset } => parse_prop(parse_events(evs, nodes2, n - 1)->0, path, units, name, prop_bytes(nodes2, offset)),
        },
        evs[n - 1] is Prop ==> {
            let o = evs[n - 1]->Prop_offset;
            &&& prop_bytes(nodes2, o) == prepared_of(evs[n - 1], nodes, size, bootargs)
            &&& prop_bytes(nodes, o).len() == 12 + spec_round4(be32(nodes, o + 4) as int)
            &&& be32(nodes, o + 4) <= spec_round4(be32(nodes, o + 4) as int)
            &&& prop_bytes(nodes, o).subrange(4, 8) == nodes.subrange(o + 4, o + 8)
        },
        is_bootargs_prop(evs[n - 1]) ==> 12 + bootargs.len() <= prop_bytes(nodes, evs[n - 1]->Prop_offset).len(),
        is_bootargs_prop(evs[n - 1]) ==> spec_value_str(prepared_of(evs[n - 1], nodes, size, bootargs)) is Some,
    ensures
        parse_events(evs, nodes2, n) == Some(prepared_model(parse_events(evs, nodes, n)->0, evs, nodes, size, bootargs, n)),
        prepared_cmdline(evs, nodes, size, bootargs, n).len() == (parse_events(evs, nodes, n)->0).bootargs.len(),
{
    let st = parse_events(evs, nodes, n - 1)->0;
    let ev = evs[n - 1];
    lemma_memory_seen_step(evs, n);
    match ev {
        FdtEvent::Node { .. } => {
            assert(prepared_cmdline(evs, nodes, size, bootargs, n) =~= prepared_cmdline(evs, nodes, size, bootargs, n - 1));
        },
        FdtEvent::Prop { path, units, name, offset } => {
            let pb = prop_bytes(nodes, offset);
            let pb2 = prop_bytes(nodes2, offset);
            lemma_names_differ();
            if path == "/chosen".spec_bytes() && name == "bootargs".spec_bytes() {
                reveal(parse_prop);
                assert(prop_len(pb) == be32(nodes, offset + 4));
                lemma_prepared_value_len(pb, bootargs);
                assert(prepared_cmdline(evs, nodes, size, bootargs, n)
                    == prepared_cmdline(evs, nodes, size, bootargs, n - 1) + spec_value_str(pb2)->0);
            } else if path == "/memory".spec_bytes() && name == "reg".spec_bytes() {
                reveal(parse_prop);
                lemma_prepared_memory(pb, size);
                assert(prepared_cmdline(evs, nodes, size, bootargs, n) =~= prepared_cmdline(evs, nodes, size, bootargs, n - 1));
            } else {
                assert(pb2 == pb);
                assert(prepared_cmdline(evs, nodes, size, bootargs, n) =~= prepared_cmdline(evs, nodes, size, bootargs, n - 1));
                lemma_parse_prop_frame(
                    st,
                    prepared_model(st, evs, nodes, size, bootargs, n - 1).memory,
                    prepared_cmdline(evs, nodes, size, bootargs, n - 1),
                    path,
                    units,
                    name,
                    pb,
                );
            }
        },
    }
}

/// Reading the first `n` events from the prepared block gives `prepared_model` of what reading
/// them from the unprepared block gives.
proof fn lemma_parse_prepared(nodes: Seq<u8>, s: Seq<u8>, nodes2: Seq<u8>, evs: Seq<FdtEvent>, size: u64, bootargs: Seq<u8>, n: int)
    requires
        walk_from(nodes, s, 0, Seq::empty(), Seq::empty()) == Some(evs),
        0 <= n <= evs.len(),
        parse_events(evs, nodes, n) is Some,
        props_prepared(nodes2, nodes, evs, evs.len() as int, size, bootargs),
        cmdline_printable(evs, nodes, size, bootargs),
        forall|k: int| 0 <= k < evs.len() && is_bootargs_prop(#[trigger] evs[k])
            ==> 12 + bootargs.len() <= prop_bytes(nodes, evs[k]->Prop_offset).len(),
    ensures
        parse_events(evs, nodes2, n) == Some(prepared_model(parse_events(evs, nodes, n)->0, evs, nodes, size, bootargs, n)),
        prepared_cmdline(evs, nodes, size, bootargs, n).len() == (parse_events(evs, nodes, n)->0).bootargs.len(),
    decreases n,
{
    lemma_parse_events_step(evs, nodes, 0);
    lemma_parse_events_step(evs, nodes2, 0);
    if n == 0 {
        assert(!memory_seen(evs, 0));
        assert(prepared_cmdline(evs, nodes, size, bootargs, 0) =~= Seq::<u8>::empty());
        assert(prepared_model(parse_events(evs, nodes, 0)->0, evs, nodes, size, bootargs, 0)
            == parse_events(evs, nodes, 0)->0);
    } else {
        lemma_parse_events_step(evs, nodes, n - 1);
        lemma_parse_events_step(evs, nodes2, n - 1);
        lemma_parse_prepared(nodes, s, nodes2, evs, size, bootargs, n - 1);
        lemma_walk_offsets(nodes, s, 0, Seq::empty(), Seq::empty());
        let ev = evs[n - 1];
        if ev is Prop {
            let o = ev->Prop_offset;
            assert(evs[n - 1] matches FdtEvent::Prop { .. });
            lemma_round4_bounds(be32(nodes, o + 4) as int);
            assert(prop_bytes(nodes, o).subrange(4, 8) =~= nodes.subrange(o + 4, o + 8));
        }
        if is_bootargs_prop(ev) {
            assert(is_bootargs_prop(evs[n - 1]));
        }
        lemma_parse_prepared_step(nodes, nodes2, evs, size, bootargs, n);
    }
}

/// Preparing a device tree for a guest and reading it back: where the unprepared tree reads as the
/// model `m` and each prepared command-line property still holds printable text, the prepared
/// tree reads as `m` with the memory size of `/memory` (where the tree has one) replaced by the
/// guest's, and the command line replaced by the prepared one; all else reads the same.
pub proof fn lemma_initialize_then_parse(nodes: Seq<u8>, strings: Seq<u8>, size: u64, bootargs: Seq<u8>)
    requires
        spec_initialize(nodes, strings, size, bootargs) is Some,
        spec_parse(nodes, strings) is Some,
        cmdline_printable(walk_from(nodes, strings, 0, Seq::empty(), Seq::empty())->0, nodes, size, bootargs),
    ensures
        ({
            let evs = walk_from(nodes, strings, 0, Seq::empty(), Seq::empty())->0;
            let m = spec_parse(nodes, strings)->0;
            spec_parse(spec_initialize(nodes, strings, size, bootargs)->0, strings) == Some(ParseModel {
                memory: if memory_seen(evs, evs.len() as int) { (m.memory.0, size) } else { m.memory },
                bootargs: prepared_cmdline(evs, nodes, size, bootargs, evs.len() as int),
                ..m
            })
        }),
{
    let evs = walk_from(nodes, strings, 0, Seq::empty(), Seq::empty())->0;
    let nodes2 = spec_initialize(nodes, strings, size, bootargs)->0;
    lemma_initialize_keeps_walk(nodes, strings, size, bootargs);
    lemma_guest_events_props(nodes, strings, size, bootargs, evs, evs.len() as int);
    lemma_bootargs_fit(nodes, strings, size, bootargs, evs, evs.len() as int);
    lemma_parse_prepared(nodes, strings, nodes2, evs, size, bootargs, evs.len() as int);
}

/// Where preparing the first `n` events succeeds, the command line fits each `bootargs`
/// property among them.
proof fn lemma_bootargs_fit(nodes: Seq<u8>, s: Seq<u8>, size: u64, bootargs: Seq<u8>, evs: Seq<FdtEvent>, n: int)
    requires
        0 <= n <= evs.len(),
        guest_events(evs, nodes, size, bootargs, n) is Some,
    ensures
        forall|k: int| 0 <= k < n && is_bootargs_prop(#[trigger] evs[k])
            ==> 12 + bootargs.len() <= prop_bytes(nodes, evs[k]->Prop_offset).len(),
    decreases n,
{
    reveal(guest_events);
    if n > 0 {
        lemma_bootargs_fit(nodes, s, size, bootargs, evs, n - 1);
        assert forall|k: int| 0 <= k < n && is_bootargs_prop(#[trigger] evs[k])
            implies 12 + bootargs.len() <= prop_bytes(nodes, evs[k]->Prop_offset).len() by {
            if k == n - 1 {
                assert(evs[k] matches FdtEvent::Prop { .. });
            }
        }
    }
}

/// Whether the structure block of the blob `b` lies after the header and apart from the
/// strings block.
pub open spec fn blocks_apart(b: Seq<u8>) -> bool {
    &&& be32(b, 8) >= 40
    &&& (be32(b, 12) + be32(b, 32) <= be32(b, 8) || be32(b, 8) + be32(b, 36) <= be32(b, 12))
}

/// The same law on whole device trees: where `after` is what `initialize_guest` makes of
/// `before` (its structure block replaced by the prepared one), the blocks lie apart, `before`
/// reads as `m` and each prepared command-line property holds printable text, `after` is well
/// formed and reads as `m` with the guest's memory size and the prepared command line.
pub proof fn lemma_initialize_guest_then_parse(before: Fdt, after: Fdt, size: u64, bootargs: Seq<u8>)
    requires
        before.wf(),
        blocks_apart(before@),
        spec_initialize(before.nodes(), before.strings(), size, bootargs) is Some,
        after@ == overwritten(before@, be32(before@, 8) as int, spec_initialize(before.nodes(), before.strings(), size, bootargs)->0),
        spec_parse(before.nodes(), before.strings()) is Some,
        cmdline_printable(walk_from(before.nodes(), before.strings(), 0, Seq::empty(), Seq::empty())->0, before.nodes(), size, bootargs),
    ensures
        after.wf(),
        after.nodes() == spec_initialize(before.nodes(), before.strings(), size, bootargs)->0,
        after.strings() == before.strings(),
        ({
            let evs = walk_from(before.nodes(), before.strings(), 0, Seq::empty(), Seq::empty())->0;
            let m = spec_parse(before.nodes(), before.strings())->0;
            spec_parse(after.nodes(), after.strings()) == Some(ParseModel {
                memory: if memory_seen(evs, evs.len() as int) { (m.memory.0, size) } else { m.memory },
                bootargs: prepared_cmdline(evs, before.nodes(), size, bootargs, evs.len() as int),
                ..m
            })
        }),
{
    let b = before@;
    let nodes = before.nodes();
    let strings = before.strings();
    let evs = walk_from(nodes, strings, 0, Seq::empty(), Seq::empty())->0;
    let prepared = spec_initialize(nodes, strings, size, bootargs)->0;
    lemma_guest_events_props(nodes, strings, size, bootargs, evs, evs.len() as int);
    assert(prepared.len() == nodes.len());
    let off = be32(b, 8) as int;
    let a = after@;
    lemma_overwritten_agree(b, off, prepared);
    lemma_agree_subrange(b, a, 0, off, 4, 8);
    lemma_agree_subrange(b, a, 0, off, 8, 12);
    lemma_agree_subrange(b, a, 0, off, 12, 16);
    lemma_agree_subrange(b, a, 0, off, 32, 36);
    lemma_agree_subrange(b, a, 0, off, 36, 40);
    assert(be32(a, 4) == be32(b, 4));
    assert(be32(a, 8) == be32(b, 8));
    assert(be32(a, 12) == be32(b, 12));
    assert(be32(a, 32) == be32(b, 32));
    assert(be32(a, 36) == be32(b, 36));
    assert(after.nodes() =~= prepared);
    let so = be32(b, 12) as int;
    let se = so + be32(b, 32);
    if se <= off {
        lemma_agree_subrange(b, a, 0, off, so, se);
    } else {
        lemma_agree_subrange(b, a, off + prepared.len(), b.len() as int, so, se);
    }
    assert(after.strings() == strings);
    lemma_initialize_then_parse(nodes, strings, size, bootargs);
}

} // verus!
