//! Where reading a device tree takes each machine fact from: the interrupt controller, the timer
//! and memory come from the `reg` property of their nodes, and the initial RAM disk's bounds from
//! the command-line node.
use vstd::prelude::*;
use vstd::string::StringSliceAdditionalSpecFns;
use crate::fdt::{
    walk_from, FdtEvent, spec_read_range, spec_read_int, prop_bytes, parse_events, spec_parse,
    lemma_parse_events_step, parse_prop, ParseModel,
};

verus! {

/// The last of the first `n` events that is a property `name` of the node at `path`, or -1.
pub open spec fn last_prop(evs: Seq<FdtEvent>, n: int, path: Seq<u8>, name: Seq<u8>) -> int
    decreases n,
{
    if n <= 0 {
        -1
    } else if evs[n - 1] matches FdtEvent::Prop { path: p, name: m, .. } && p == path && m == name {
        n - 1
    } else {
        last_prop(evs, n - 1, path, name)
    }
}

/// The bytes of event `k` where it is a property.
pub open spec fn bytes_of(evs: Seq<FdtEvent>, nodes: Seq<u8>, k: int) -> Seq<u8> {
    match evs[k] {
        FdtEvent::Prop { offset, .. } => prop_bytes(nodes, offset),
        FdtEvent::Node { .. } => Seq::empty(),
    }
}

/// The start address in the `reg` property that is event `k`: `None` where there is none.
pub open spec fn reg_start(evs: Seq<FdtEvent>, nodes: Seq<u8>, k: int) -> Option<u64> {
    if k < 0 {
        None
    } else {
        Some((spec_read_range(bytes_of(evs, nodes, k))->0).0)
    }
}

/// The integer in the property that is event `k`: `None` where there is none.
pub open spec fn int_at(evs: Seq<FdtEvent>, nodes: Seq<u8>, k: int) -> Option<u64> {
    if k < 0 {
        None
    } else {
        Some(spec_read_int(bytes_of(evs, nodes, k))->0)
    }
}

/// The node paths and property names that the reading tells apart are different strings.
proof fn lemma_paths_differ()
    ensures
        "/soc/clint".spec_bytes() != "/chosen".spec_bytes(),
        "/soc/clint".spec_bytes() != "/memory".spec_bytes(),
        "/soc/clint".spec_bytes() != "/uart".spec_bytes(),
        "/soc/clint".spec_bytes() != "/soc/uart".spec_bytes(),
        "/soc/clint".spec_bytes() != "/soc/serial".spec_bytes(),
        "/soc/interrupt-controller".spec_bytes() != "/chosen".spec_bytes(),
        "/soc/interrupt-controller".spec_bytes() != "/memory".spec_bytes(),
        "/soc/interrupt-controller".spec_bytes() != "/uart".spec_bytes(),
        "/soc/interrupt-controller".spec_bytes() != "/soc/uart".spec_bytes(),
        "/soc/interrupt-controller".spec_bytes() != "/soc/serial".spec_bytes(),
        "/soc/interrupt-controller".spec_bytes() != "/soc/clint".spec_bytes(),
        "/memory".spec_bytes() != "/chosen".spec_bytes(),
        "linux,initrd-start".spec_bytes() != "linux,initrd-end".spec_bytes(),
{
    broadcast use vstd::string::is_ascii_spec_bytes;

    reveal_strlit("/soc/clint");
    reveal_strlit("/soc/interrupt-controller");
    reveal_strlit("/chosen");
    reveal_strlit("/memory");
    reveal_strlit("/uart");
    reveal_strlit("/soc/uart");
    reveal_strlit("/soc/serial");
    reveal_strlit("linux,initrd-start");
    reveal_strlit("linux,initrd-end");
    assert(vstd::string::is_ascii("/soc/clint"));
    assert(vstd::string::is_ascii("/soc/interrupt-controller"));
    assert(vstd::string::is_ascii("/chosen"));
    assert(vstd::string::is_ascii("/memory"));
    assert(vstd::string::is_ascii("/uart"));
    assert(vstd::string::is_ascii("/soc/uart"));
    assert(vstd::string::is_ascii("/soc/serial"));
    assert(vstd::string::is_ascii("linux,initrd-start"));
    assert(vstd::string::is_ascii("linux,initrd-end"));
    assert("/soc/clint".spec_bytes().len() == 10);
    assert("/soc/interrupt-controller".spec_bytes().len() == 25);
    assert("/chosen".spec_bytes().len() == 7);
    assert("/memory".spec_bytes().len() == 7);
    assert("/uart".spec_bytes().len() == 5);
    assert("/soc/uart".spec_bytes().len() == 9);
    assert("/soc/serial".spec_bytes().len() == 11);
    assert("/memory".spec_bytes()[1] == 109);
    assert("/chosen".spec_bytes()[1] == 99);
    assert("linux,initrd-start".spec_bytes().len() == 18);
    assert("linux,initrd-end".spec_bytes().len() == 16);
}

/// What the first `n` events gather of the machine facts read from single properties.
#[verifier::spinoff_prover]
proof fn lemma_reads_upto(evs: Seq<FdtEvent>, nodes: Seq<u8>, n: int)
    requires
        0 <= n <= evs.len(),
        parse_events(evs, nodes, n) is Some,
    ensures
        ({
            let st = parse_events(evs, nodes, n)->0;
            &&& st.clint == reg_start(evs, nodes, last_prop(evs, n, "/soc/clint".spec_bytes(), "reg".spec_bytes()))
            &&& st.plic == reg_start(evs, nodes, last_prop(evs, n, "/soc/interrupt-controller".spec_bytes(), "reg".spec_bytes()))
            &&& st.memory == (if last_prop(evs, n, "/memory".spec_bytes(), "reg".spec_bytes()) < 0 {
                (0u64, 0u64)
            } else {
                spec_read_range(bytes_of(evs, nodes, last_prop(evs, n, "/memory".spec_bytes(), "reg".spec_bytes())))->0
            })
            &&& st.initrd_start == int_at(evs, nodes, last_prop(evs, n, "/chosen".spec_bytes(), "linux,initrd-start".spec_bytes()))
            &&& st.initrd_end == int_at(evs, nodes, last_prop(evs, n, "/chosen".spec_bytes(), "linux,initrd-end".spec_bytes()))
        }),
    decreases n,
{
    lemma_parse_events_step(evs, nodes, 0);
    if n > 0 {
        lemma_parse_events_step(evs, nodes, n - 1);
        lemma_reads_upto(evs, nodes, n - 1);
        lemma_paths_differ();
        let st0 = parse_events(evs, nodes, n - 1)->0;
        let st = parse_events(evs, nodes, n)->0;
        match evs[n - 1] {
            FdtEvent::Node { .. } => {
                assert(st == st0);
            },
            FdtEvent::Prop { path, units, name, offset } => {
                let p = prop_bytes(nodes, offset);
                assert(p == bytes_of(evs, nodes, n - 1));
                assert(parse_prop(st0, path, units, name, p) == Some(st));
                lemma_prop_keeps(st0, path, units, name, p);
            },
        }
    }
}

/// One property changes a fact read from a single property only where it is that property.
proof fn lemma_prop_keeps(st0: ParseModel, path: Seq<u8>, units: Seq<Option<u64>>, name: Seq<u8>, p: Seq<u8>)
    requires
        parse_prop(st0, path, units, name, p) is Some,
    ensures
        ({
            let st = parse_prop(st0, path, units, name, p)->0;
            &&& st.clint == (if path == "/soc/clint".spec_bytes() && name == "reg".spec_bytes() {
                Some((spec_read_range(p)->0).0)
            } else {
                st0.clint
            })
            &&& st.plic == (if path == "/soc/interrupt-controller".spec_bytes() && name == "reg".spec_bytes() {
                Some((spec_read_range(p)->0).0)
            } else {
                st0.plic
            })
            &&& st.memory == (if path == "/memory".spec_bytes() && name == "reg".spec_bytes() {
                spec_read_range(p)->0
            } else {
                st0.memory
            })
            &&& st.initrd_start == (if path == "/chosen".spec_bytes() && name == "linux,initrd-start".spec_bytes() {
                Some(spec_read_int(p)->0)
            } else {
                st0.initrd_start
            })
            &&& st.initrd_end == (if path == "/chosen".spec_bytes() && name == "linux,initrd-end".spec_bytes() {
                Some(spec_read_int(p)->0)
            } else {
                st0.initrd_end
            })
        }),
{
    reveal(parse_prop);
    lemma_paths_differ();
}

/// Reading a device tree takes the interrupt controller's and the timer's addresses from the
/// start of the `reg` property of `/soc/interrupt-controller` and `/soc/clint`, memory's offset
/// and size from the `reg` property of `/memory`, and the initial RAM disk's bounds from the
/// `linux,initrd-start` and `linux,initrd-end` properties of `/chosen`: in each case the last
/// such property the walk meets; a fact whose property is missing stays unset (memory: zero).
pub proof fn lemma_parse_reads_nodes(nodes: Seq<u8>, strings: Seq<u8>)
    requires
        spec_parse(nodes, strings) is Some,
    ensures
        ({
            let evs = walk_from(nodes, strings, 0, Seq::empty(), Seq::empty())->0;
            let n = evs.len() as int;
            let st = spec_parse(nodes, strings)->0;
            &&& st.clint == reg_start(evs, nodes, last_prop(evs, n, "/soc/clint".spec_bytes(), "reg".spec_bytes()))
            &&& st.plic == reg_start(evs, nodes, last_prop(evs, n, "/soc/interrupt-controller".spec_bytes(), "reg".spec_bytes()))
            &&& st.memory == (if last_prop(evs, n, "/memory".spec_bytes(), "reg".spec_bytes()) < 0 {
                (0u64, 0u64)
            } else {
                spec_read_range(bytes_of(evs, nodes, last_prop(evs, n, "/memory".spec_bytes(), "reg".spec_bytes())))->0
            })
            &&& st.initrd_start == int_at(evs, nodes, last_prop(evs, n, "/chosen".spec_bytes(), "linux,initrd-start".spec_bytes()))
            &&& st.initrd_end == int_at(evs, nodes, last_prop(evs, n, "/chosen".spec_bytes(), "linux,initrd-end".spec_bytes()))
        }),
{
    let evs = walk_from(nodes, strings, 0, Seq::empty(), Seq::empty())->0;
    lemma_reads_upto(evs, nodes, evs.len() as int);
}

} // verus!
