//! The text listing of a device tree's properties: one line per property, with the node's
//! path (each node followed by its unit address) and the value in the form its length suggests.
use vstd::prelude::*;
use crate::fdt::{
    events_of, prop_bytes, prop_len, spec_read_int, spec_read_range, spec_value_str,
    visits_hold_props, walk_from, Fdt, FdtEvent, FdtVisit,
};
use crate::print::{decimal, spec_decimal};

verus! {

/// The lowercase hexadecimal digit of `d`, which is below 16.
pub open spec fn hex_digit(d: nat) -> u8 {
    if d < 10 {
        (48 + d) as u8
    } else {
        (87 + d) as u8
    }
}

/// The lowercase hexadecimal digits of `n`, most significant first, without leading zeros.
pub open spec fn spec_hex(n: nat) -> Seq<u8>
    decreases n,
{
    if n < 16 {
        seq![hex_digit(n)]
    } else {
        spec_hex(n / 16).push(hex_digit(n % 16))
    }
}

/// The lowercase hexadecimal digits of `n`, most significant first, without leading zeros.
pub fn hex(n: u64) -> (r: Vec<u8>)
    ensures
        r@ == spec_hex(n as nat),
    decreases n,
{
    let d = n % 16;
    let digit: u8 = if d < 10 { (48 + d) as u8 } else { (87 + d) as u8 };
    if n < 16 {
        let mut v: Vec<u8> = Vec::new();
        v.push(digit);
        assert(v@ =~= seq![hex_digit(n as nat)]);
        v
    } else {
        let mut v = hex(n / 16);
        v.push(digit);
        v
    }
}

/// How the node at depth `d` shows its unit address: `@` and the address in hexadecimal, or
/// nothing where it has none.
pub open spec fn unit_text(units: Seq<Option<u64>>, d: int) -> Seq<u8> {
    if 0 <= d < units.len() && units[d] is Some {
        seq![64u8] + spec_hex(units[d]->0 as nat)
    } else {
        Seq::empty()
    }
}

/// The number of `/` among the first `n` bytes of `p`.
pub open spec fn slashes(p: Seq<u8>, n: int) -> int
    decreases n,
{
    if n <= 0 {
        0
    } else {
        slashes(p, n - 1) + if p[n - 1] == 47 { 1int } else { 0int }
    }
}

/// The first `n` bytes of the path `p` as the listing shows them: each `/` preceded by the unit
/// address of the node it closes.
pub open spec fn shown_prefix(p: Seq<u8>, units: Seq<Option<u64>>, n: int) -> Seq<u8>
    decreases n,
{
    if n <= 0 {
        Seq::empty()
    } else if p[n - 1] == 47 {
        shown_prefix(p, units, n - 1) + unit_text(units, slashes(p, n - 1)) + seq![47u8]
    } else {
        shown_prefix(p, units, n - 1).push(p[n - 1])
    }
}

/// The path `p` as the listing shows it, the last node's unit address included.
pub open spec fn shown_path(p: Seq<u8>, units: Seq<Option<u64>>) -> Seq<u8> {
    shown_prefix(p, units, p.len() as int) + unit_text(units, slashes(p, p.len() as int))
}

/// How the listing shows the value of the property whose bytes are `p`, with the line's end:
/// a 32- or 64-bit number as `=0x` and hexadecimal, an (address, size) pair as two hexadecimal
/// numbers, printable text in quotes, other values by their length, and an empty value not at all.
pub open spec fn value_text(p: Seq<u8>) -> Seq<u8> {
    let n = prop_len(p);
    if n == 4 || n == 8 {
        seq![61u8, 48, 120] + spec_hex(spec_read_int(p)->0 as nat) + seq![10u8]
    } else if n == 16 {
        let r = spec_read_range(p)->0;
        seq![61u8] + spec_hex(r.0 as nat) + seq![58u8] + spec_hex(r.1 as nat) + seq![10u8]
    } else if n != 0 {
        match spec_value_str(p) {
            Some(v) => seq![61u8, 34] + v + seq![34u8, 10],
            None => value_len_text(n as nat),
        }
    } else {
        seq![10u8]
    }
}

/// ` (value_len=N)` and the line's end.
pub open spec fn value_len_text(n: nat) -> Seq<u8> {
    seq![32u8, 40, 118, 97, 108, 117, 101, 95, 108, 101, 110, 61] + spec_decimal(n) + seq![41u8, 10]
}

/// The line of the property named `name`, with bytes `p`, in the node at `path`: the root's
/// properties show their name alone, the others the shown path, `:` and the name.
pub open spec fn property_line(path: Seq<u8>, units: Seq<Option<u64>>, name: Seq<u8>, p: Seq<u8>) -> Seq<u8> {
    if path == seq![47u8] {
        name + value_text(p)
    } else {
        shown_path(path, units) + seq![58u8] + name + value_text(p)
    }
}

/// The lines of the properties among `events`, in order, whose bytes stand in `nodes`.
pub open spec fn listing(events: Seq<FdtEvent>, nodes: Seq<u8>) -> Seq<u8>
    decreases events.len(),
{
    if events.len() == 0 {
        Seq::empty()
    } else {
        let before = listing(events.drop_last(), nodes);
        match events.last() {
            FdtEvent::Prop { path, units, name, offset } => before + property_line(
                path,
                units,
                name,
                prop_bytes(nodes, offset),
            ),
            FdtEvent::Node { .. } => before,
        }
    }
}

fn append(v: &mut Vec<u8>, s: &[u8])
    ensures
        final(v)@ == old(v)@ + s@,
{
    let mut k: usize = 0;
    while k < s.len()
        invariant
            k <= s@.len(),
            v@ == old(v)@ + s@.subrange(0, k as int),
        decreases s@.len() - k,
    {
        v.push(s[k]);
        k = k + 1;
        assert(v@ =~= old(v)@ + s@.subrange(0, k as int));
    }
    assert(s@.subrange(0, k as int) =~= s@);
}

fn push_unit(v: &mut Vec<u8>, units: &Vec<Option<u64>>, d: usize)
    ensures
        final(v)@ == old(v)@ + unit_text(units@, d as int),
{
    if d < units.len() {
        if let Some(a) = units[d] {
            v.push(64u8);
            let digits = hex(a);
            append(v, digits.as_slice());
            assert(final(v)@ =~= old(v)@ + (seq![64u8] + spec_hex(a as nat)));
            return;
        }
    }
    assert(old(v)@ + unit_text(units@, d as int) =~= old(v)@);
}

/// The path `path` as the listing shows it.
fn show_path(v: &mut Vec<u8>, path: &Vec<u8>, units: &Vec<Option<u64>>)
    ensures
        final(v)@ == old(v)@ + shown_path(path@, units@),
{
    let mut depth: usize = 0;
    let mut i: usize = 0;
    while i < path.len()
        invariant
            i <= path@.len(),
            depth == slashes(path@, i as int),
            depth <= i,
            v@ == old(v)@ + shown_prefix(path@, units@, i as int),
        decreases path@.len() - i,
    {
        let ch = path[i];
        if ch == 47u8 {
            push_unit(v, units, depth);
            v.push(47u8);
            depth = depth + 1;
        } else {
            v.push(ch);
        }
        i = i + 1;
        assert(v@ =~= old(v)@ + shown_prefix(path@, units@, i as int));
    }
    push_unit(v, units, depth);
    assert(v@ =~= old(v)@ + shown_path(path@, units@));
}

fn push_bytes3(v: &mut Vec<u8>, a: u8, b: u8, c: u8)
    ensures
        final(v)@ == old(v)@ + seq![a, b, c],
{
    v.push(a);
    v.push(b);
    v.push(c);
    assert(v@ =~= old(v)@ + seq![a, b, c]);
}

/// The value of `prop` as the listing shows it, with the line's end.
fn show_value(v: &mut Vec<u8>, prop: &crate::fdt::Property)
    requires
        prop.wf(),
    ensures
        final(v)@ == old(v)@ + value_text(prop@),
{
    let n = prop.len();
    if n == 4 || n == 8 {
        let x = match prop.read_int() {
            Some(x) => x,
            None => 0,
        };
        push_bytes3(v, 61u8, 48u8, 120u8);
        let digits = hex(x);
        append(v, digits.as_slice());
        v.push(10u8);
        assert(v@ =~= old(v)@ + value_text(prop@));
    } else if n == 16 {
        let (a, b) = match prop.read_range() {
            Some(r) => r,
            None => (0, 0),
        };
        v.push(61u8);
        let da = hex(a);
        append(v, da.as_slice());
        v.push(58u8);
        let db = hex(b);
        append(v, db.as_slice());
        v.push(10u8);
        assert(v@ =~= old(v)@ + value_text(prop@));
    } else if n != 0 {
        match prop.value_str() {
            Some(s) => {
                v.push(61u8);
                v.push(34u8);
                append(v, s.as_slice());
                v.push(34u8);
                v.push(10u8);
                assert(v@ =~= old(v)@ + value_text(prop@));
            },
            None => {
                let head: [u8; 12] = [32, 40, 118, 97, 108, 117, 101, 95, 108, 101, 110, 61];
                append(v, &head);
                let digits = decimal(n as u64);
                append(v, digits.as_slice());
                v.push(41u8);
                v.push(10u8);
                assert(head@ =~= seq![32u8, 40, 118, 97, 108, 117, 101, 95, 108, 101, 110, 61]);
                assert(v@ =~= old(v)@ + value_text(prop@));
            },
        }
    } else {
        v.push(10u8);
        assert(v@ =~= old(v)@ + value_text(prop@));
    }
}

impl Fdt {
    /// The listing of the tree's properties, as `listing` says, in the order the walk meets
    /// them; `None` where the walk finds the structure block malformed.
    pub fn print(&self) -> (r: Option<Vec<u8>>)
        requires
            self.wf(),
            self@.len() + 8 <= usize::MAX,
        ensures
            r is None <==> walk_from(self.nodes(), self.strings(), 0, Seq::empty(), Seq::empty()) is None,
            r matches Some(t) ==> t@ == listing(
                walk_from(self.nodes(), self.strings(), 0, Seq::empty(), Seq::empty())->0,
                self.nodes(),
            ),
    {
        let visits = match self.walk() {
            Some(v) => v,
            None => {
                return None;
            },
        };
        let ghost events = events_of(visits@);
        let ghost nodes = self.nodes();
        let mut out: Vec<u8> = Vec::new();
        let mut k: usize = 0;
        while k < visits.len()
            invariant
                k <= visits@.len(),
                events == events_of(visits@),
                visits_hold_props(visits@, nodes),
                out@ == listing(events.subrange(0, k as int), nodes),
            decreases visits@.len() - k,
        {
            let ghost before = out@;
            assert(events.subrange(0, k as int + 1).drop_last() =~= events.subrange(0, k as int));
            match &visits[k] {
                FdtVisit::Property { path, unit_addresses, name, prop, offset } => {
                    assert(visits@[k as int] matches FdtVisit::Property { .. });
                    if path.len() == 1 && path[0] == 47u8 {
                        assert(path@ =~= seq![47u8]);
                    } else {
                        assert(path@ != seq![47u8]);
                        show_path(&mut out, path, unit_addresses);
                        out.push(58u8);
                    }
                    append(&mut out, name.as_slice());
                    show_value(&mut out, prop);
                    assert(out@ =~= before + property_line(path@, unit_addresses@, name@, prop@));
                },
                FdtVisit::Node { .. } => {},
            }
            k = k + 1;
        }
        assert(events.subrange(0, k as int) =~= events);
        Some(out)
    }
}

} // verus!
