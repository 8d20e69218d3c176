//! Domain names as sequences of labels, with the wire encoding and the
//! decoding of compressed names.
use vstd::prelude::*;
use vstd::string::*;
use vstd::utf8::*;

use crate::io::{ErrorKind, IoError};
use crate::reader::{PacketReader, Parsed, Stop};
use crate::text::{join_dot, join_with_dots, string_from_utf8, text_bytes};
use crate::writer::{PacketWriter, WriteResult};

verus! {

/// One label of a domain name.
pub type Label = String;

/// The most compression pointers one name decode follows.  Pointers address
/// 14 bits of offset, so a name that needs more jumps visits some offset
/// twice and its decoding would never end.
pub const MAX_POINTER_JUMPS: u32 = 16384;

/// A domain name: its labels from the most specific to the top level; no
/// labels at all is the root.
#[derive(Debug, PartialEq, Eq, Clone)]
pub struct Name(Vec<Label>);

impl View for Name {
    type V = Seq<Seq<u8>>;

    /// The UTF-8 bytes of each label.
    closed spec fn view(&self) -> Seq<Seq<u8>> {
        self.0@.map_values(|l: String| text_bytes(l))
    }
}

/// The labels decoded from a packet at `pos`, following at most `fuel`
/// compression pointers, and the offset just past the name where it was
/// read (after the first pointer, if any).
pub open spec fn parse_name(d: Seq<u8>, pos: int, fuel: nat) -> Parsed<Seq<Seq<u8>>>
    decreases fuel, d.len() - pos,
{
    if pos < 0 || pos >= d.len() {
        Parsed::Eof
    } else if d[pos] >= 0xC0 {
        if pos + 1 >= d.len() {
            Parsed::Eof
        } else if fuel == 0 {
            Parsed::Fault
        } else {
            let target = (d[pos] as int - 0xC0) * 256 + d[pos + 1] as int;
            match parse_name(d, target, (fuel - 1) as nat) {
                Parsed::Done(ls, _) => Parsed::Done(ls, pos + 2),
                Parsed::Eof => Parsed::Eof,
                Parsed::Fault => Parsed::Fault,
            }
        }
    } else if d[pos] == 0 {
        Parsed::Done(seq![], pos + 1)
    } else {
        let end = pos + 1 + d[pos] as int;
        if end > d.len() {
            Parsed::Eof
        } else {
            let label = d.subrange(pos + 1, end);
            if !valid_utf8(label) {
                Parsed::Fault
            } else {
                prepend_labels(seq![label], parse_name(d, end, fuel))
            }
        }
    }
}

/// A name that decodes ends past its start and within the packet.
pub proof fn lemma_name_end(d: Seq<u8>, pos: int, fuel: nat)
    ensures
        parse_name(d, pos, fuel) matches Parsed::Done(_, end) ==> 0 <= pos < end <= d.len(),
    decreases fuel, d.len() - pos,
{
    if 0 <= pos < d.len() {
        if d[pos] >= 0xC0 {
            if pos + 1 < d.len() && fuel > 0 {
                let target = (d[pos] as int - 0xC0) * 256 + d[pos + 1] as int;
                lemma_name_end(d, target, (fuel - 1) as nat);
            }
        } else if d[pos] != 0 {
            let end = pos + 1 + d[pos] as int;
            if end <= d.len() {
                lemma_name_end(d, end, fuel);
            }
        }
    }
}

/// A name that decodes within some pointer budget decodes the same way with
/// any larger budget: the budget only cuts off decodes that would go on.
pub proof fn lemma_parse_name_more_fuel(d: Seq<u8>, pos: int, fuel: nat, more: nat)
    requires
        fuel <= more,
        !(parse_name(d, pos, fuel) is Fault),
    ensures
        parse_name(d, pos, more) == parse_name(d, pos, fuel),
    decreases fuel, d.len() - pos,
{
    if 0 <= pos < d.len() {
        if d[pos] >= 0xC0 {
            if pos + 1 < d.len() && fuel > 0 {
                let target = (d[pos] as int - 0xC0) * 256 + d[pos + 1] as int;
                lemma_parse_name_more_fuel(d, target, (fuel - 1) as nat, (more - 1) as nat);
            }
        } else if d[pos] != 0 {
            let end = pos + 1 + d[pos] as int;
            if end <= d.len() && valid_utf8(d.subrange(pos + 1, end)) {
                lemma_parse_name_more_fuel(d, end, fuel, more);
            }
        }
    }
}

/// What ends the run of labels that starts at `p`: a compression pointer
/// (with its target), the end of the name or of the packet, or a label that
/// is not UTF-8.
enum LabelRun {
    Pointer(int),
    Ends,
    Bad,
}

/// The end of the run of labels at `p`.
spec fn label_run(d: Seq<u8>, p: int) -> LabelRun
    decreases d.len() - p,
{
    if p < 0 || p >= d.len() {
        LabelRun::Ends
    } else if d[p] >= 0xC0 {
        if p + 1 >= d.len() {
            LabelRun::Ends
        } else {
            LabelRun::Pointer((d[p] as int - 0xC0) * 256 + d[p + 1] as int)
        }
    } else if d[p] == 0 {
        LabelRun::Ends
    } else {
        let end = p + 1 + d[p] as int;
        if end > d.len() {
            LabelRun::Ends
        } else if !valid_utf8(d.subrange(p + 1, end)) {
            LabelRun::Bad
        } else {
            label_run(d, end)
        }
    }
}

/// The place reached from `p` after following `k` pointers (or -1 once a
/// run ends without one).
spec fn chain(d: Seq<u8>, p: int, k: nat) -> int
    decreases k,
{
    if k == 0 {
        p
    } else {
        match label_run(d, p) {
            LabelRun::Pointer(t) => chain(d, t, (k - 1) as nat),
            _ => -1,
        }
    }
}

/// The first `k` runs from `p` all end in pointers.
spec fn pointers(d: Seq<u8>, p: int, k: nat) -> bool
    decreases k,
{
    k == 0 || match label_run(d, p) {
        LabelRun::Pointer(t) => pointers(d, t, (k - 1) as nat),
        _ => false,
    }
}

/// A decode faults exactly when its run of labels is bad, or ends in a
/// pointer with no budget left or whose target faults.
proof fn lemma_fault_step(d: Seq<u8>, p: int, f: nat)
    ensures
        (parse_name(d, p, f) is Fault) == match label_run(d, p) {
            LabelRun::Bad => true,
            LabelRun::Ends => false,
            LabelRun::Pointer(t) => f == 0 || parse_name(d, t, (f - 1) as nat) is Fault,
        },
    decreases d.len() - p,
{
    if 0 <= p < d.len() && d[p] < 0xC0 && d[p] != 0 {
        let end = p + 1 + d[p] as int;
        if end <= d.len() && valid_utf8(d.subrange(p + 1, end)) {
            lemma_fault_step(d, end, f);
        }
    }
}

/// A pointer target lies in the 14-bit offset range.
proof fn lemma_target_range(d: Seq<u8>, p: int)
    ensures
        label_run(d, p) matches LabelRun::Pointer(t) ==> 0 <= t < 16384,
    decreases d.len() - p,
{
    if 0 <= p < d.len() && d[p] < 0xC0 && d[p] != 0 {
        let end = p + 1 + d[p] as int;
        if end <= d.len() && valid_utf8(d.subrange(p + 1, end)) {
            lemma_target_range(d, end);
        }
    }
}

/// A fault within budget `f` comes from a bad run reached by pointers, or
/// from `f + 1` runs in a row ending in pointers.
proof fn lemma_fault_unroll(d: Seq<u8>, p: int, f: nat)
    requires
        parse_name(d, p, f) is Fault,
    ensures
        pointers(d, p, f + 1) || exists|k: nat|
            k <= f && pointers(d, p, k) && #[trigger] label_run(d, chain(d, p, k)) is Bad,
    decreases f,
{
    lemma_fault_step(d, p, f);
    match label_run(d, p) {
        LabelRun::Bad => {
            assert(pointers(d, p, 0) && label_run(d, chain(d, p, 0)) is Bad);
        },
        LabelRun::Ends => {},
        LabelRun::Pointer(t) => {
            if f == 0 {
                assert(pointers(d, t, 0));
                assert(pointers(d, p, 1));
            } else {
                lemma_fault_unroll(d, t, (f - 1) as nat);
                if pointers(d, t, f) {
                    assert(pointers(d, p, f + 1));
                } else {
                    let k = choose|k: nat|
                        k <= f - 1 && pointers(d, t, k) && #[trigger] label_run(d, chain(d, t, k))
                            is Bad;
                    assert(chain(d, p, k + 1) == chain(d, t, k));
                    assert(pointers(d, p, k + 1));
                    assert(label_run(d, chain(d, p, (k + 1) as nat)) is Bad);
                }
            }
        },
    }
}

/// Pointers that lead to a bad run fault with every budget.
proof fn lemma_bad_faults(d: Seq<u8>, p: int, k: nat, f: nat)
    requires
        pointers(d, p, k),
        label_run(d, chain(d, p, k)) is Bad,
    ensures
        parse_name(d, p, f) is Fault,
    decreases k, f,
{
    lemma_fault_step(d, p, f);
    if k > 0 {
        if let LabelRun::Pointer(t) = label_run(d, p) {
            if f > 0 {
                lemma_bad_faults(d, t, (k - 1) as nat, (f - 1) as nat);
            }
        }
    }
}

/// Runs that end in pointers without end fault with every budget.
proof fn lemma_endless_faults(d: Seq<u8>, p: int, f: nat)
    requires
        forall|k: nat| #[trigger] pointers(d, p, k),
    ensures
        parse_name(d, p, f) is Fault,
    decreases f,
{
    lemma_fault_step(d, p, f);
    assert(pointers(d, p, 1));
    if let LabelRun::Pointer(t) = label_run(d, p) {
        if f > 0 {
            assert forall|k: nat| #[trigger] pointers(d, t, k) by {
                assert(pointers(d, p, k + 1));
            }
            lemma_endless_faults(d, t, (f - 1) as nat);
        }
    }
}

/// Following `a` pointers, then `b` more, is following `a + b`.
proof fn lemma_chain_compose(d: Seq<u8>, p: int, a: nat, b: nat)
    requires
        pointers(d, p, a),
    ensures
        chain(d, p, a + b) == chain(d, chain(d, p, a), b),
        pointers(d, p, a + b) == pointers(d, chain(d, p, a), b),
    decreases a,
{
    if a > 0 {
        if let LabelRun::Pointer(t) = label_run(d, p) {
            lemma_chain_compose(d, t, (a - 1) as nat, b);
            assert((a + b - 1) as nat == (a - 1) as nat + b);
        }
    }
}

/// Pointers in a row also hold for any shorter row.
proof fn lemma_pointers_prefix(d: Seq<u8>, p: int, k: nat, j: nat)
    requires
        pointers(d, p, k),
        j <= k,
    ensures
        pointers(d, p, j),
    decreases j,
{
    if j > 0 {
        if let LabelRun::Pointer(t) = label_run(d, p) {
            lemma_pointers_prefix(d, t, (k - 1) as nat, (j - 1) as nat);
        }
    }
}

/// The places reached by pointers in a row are the targets of those pointers.
proof fn lemma_chain_target(d: Seq<u8>, p: int, k: nat, j: nat)
    requires
        pointers(d, p, k),
        j < k,
    ensures
        label_run(d, chain(d, p, j)) == LabelRun::Pointer(chain(d, p, j + 1)),
{
    lemma_pointers_prefix(d, p, k, j);
    lemma_pointers_prefix(d, p, k, j + 1);
    lemma_chain_compose(d, p, j, 1);
    let q = chain(d, p, j);
    assert(pointers(d, q, 1));
    if let LabelRun::Pointer(t) = label_run(d, q) {
        assert(chain(d, q, 1) == chain(d, t, 0));
    }
}

/// A run of pointers that comes back to a place it reached goes on forever.
proof fn lemma_cycle_endless(d: Seq<u8>, q: int, n: nat, m: nat)
    requires
        n > 0,
        pointers(d, q, n),
        chain(d, q, n) == q,
    ensures
        pointers(d, q, m),
    decreases m,
{
    if m <= n {
        lemma_pointers_prefix(d, q, n, m);
    } else {
        lemma_cycle_endless(d, q, n, (m - n) as nat);
        lemma_chain_compose(d, q, n, (m - n) as nat);
        assert(n + (m - n) as nat == m);
    }
}

/// More pointers in a row than there are offsets must come back to an
/// offset, and so go on forever.
proof fn lemma_pigeonhole(d: Seq<u8>, p: int)
    requires
        pointers(d, p, 16385),
    ensures
        forall|k: nat| #[trigger] pointers(d, p, k),
{
    let s = Seq::new(16385, |j: int| chain(d, p, (j + 1) as nat));
    assert forall|j: int| 0 <= j < s.len() implies 0 <= #[trigger] s[j] < 16384 by {
        lemma_chain_target(d, p, 16385, j as nat);
        lemma_target_range(d, chain(d, p, j as nat));
    }
    if s.no_duplicates() {
        s.unique_seq_to_set();
        vstd::set_lib::lemma_int_range(0, 16384);
        assert(s.to_set().subset_of(vstd::set_lib::set_int_range(0, 16384))) by {
            assert forall|x: int| s.to_set().contains(x) implies vstd::set_lib::set_int_range(
                0,
                16384,
            ).contains(x) by {
                let j = choose|j: int| 0 <= j < s.len() && s[j] == x;
                assert(0 <= s[j] < 16384);
            }
        }
        vstd::set_lib::lemma_len_subset(s.to_set(), vstd::set_lib::set_int_range(0, 16384));
        assert(false);
    } else {
        let (a, b) = choose|a: int, b: int|
            0 <= a < s.len() && 0 <= b < s.len() && a != b && s[a] == s[b];
        let lo: nat = if a < b { (a + 1) as nat } else { (b + 1) as nat };
        let hi: nat = if a < b { (b + 1) as nat } else { (a + 1) as nat };
        assert(chain(d, p, lo) == chain(d, p, hi));
        let q = chain(d, p, lo);
        let n: nat = (hi - lo) as nat;
        lemma_pointers_prefix(d, p, 16385, hi);
        lemma_pointers_prefix(d, p, 16385, lo);
        lemma_chain_compose(d, p, lo, n);
        assert(lo + n == hi);
        lemma_pointers_prefix(d, p, 16385, hi);
        assert forall|k: nat| #[trigger] pointers(d, p, k) by {
            if k <= lo {
                lemma_pointers_prefix(d, p, 16385, k);
            } else {
                lemma_cycle_endless(d, q, n, (k - lo) as nat);
                lemma_chain_compose(d, p, lo, (k - lo) as nat);
                assert(lo + (k - lo) as nat == k);
            }
        }
    }
}

/// Giving up after `MAX_POINTER_JUMPS` pointers refuses only names that no
/// budget decodes: such a name meets a label that is not UTF-8, or follows
/// pointers that come back to where they were, forever.
pub proof fn lemma_fault_is_final(d: Seq<u8>, p: int, f: nat)
    requires
        parse_name(d, p, MAX_POINTER_JUMPS as nat) is Fault,
    ensures
        parse_name(d, p, f) is Fault,
{
    lemma_fault_unroll(d, p, MAX_POINTER_JUMPS as nat);
    if pointers(d, p, 16385) {
        lemma_pigeonhole(d, p);
        lemma_endless_faults(d, p, f);
    } else {
        let k = choose|k: nat|
            k <= MAX_POINTER_JUMPS as nat && pointers(d, p, k) && #[trigger] label_run(
                d,
                chain(d, p, k),
            ) is Bad;
        lemma_bad_faults(d, p, k, f);
    }
}

/// `ls` put in front of the labels of a parse.
pub open spec fn prepend_labels(ls: Seq<Seq<u8>>, p: Parsed<Seq<Seq<u8>>>) -> Parsed<Seq<Seq<u8>>> {
    match p {
        Parsed::Done(rest, end) => Parsed::Done(ls + rest, end),
        Parsed::Eof => Parsed::Eof,
        Parsed::Fault => Parsed::Fault,
    }
}

/// The outcome of a decode that has already read the labels `ls` and, when
/// it followed a pointer, must leave the reader just past the first one.
pub open spec fn resumed(ls: Seq<Seq<u8>>, after: Option<u64>, p: Parsed<Seq<Seq<u8>>>) -> Parsed<
    Seq<Seq<u8>>,
> {
    match p {
        Parsed::Done(rest, end) => Parsed::Done(
            ls + rest,
            match after {
                Some(a) => a as int,
                None => end,
            },
        ),
        Parsed::Eof => Parsed::Eof,
        Parsed::Fault => Parsed::Fault,
    }
}

/// Following a pointer keeps the first place to resume at.
proof fn lemma_resumed_pointer(
    ls: Seq<Seq<u8>>,
    first: Option<u64>,
    after: int,
    p: Parsed<Seq<Seq<u8>>>,
)
    requires
        0 <= after <= u64::MAX,
    ensures
        resumed(
            ls,
            first,
            match p {
                Parsed::Done(rest, _) => Parsed::Done(rest, after),
                Parsed::Eof => Parsed::Eof,
                Parsed::Fault => Parsed::Fault,
            },
        ) == resumed(
            ls,
            match first {
                Some(a) => Some(a),
                None => Some(after as u64),
            },
            p,
        ),
{
}

/// The name at `pos`, as a decoder that follows pointers without a bound reads it.
pub open spec fn name_at(d: Seq<u8>, pos: int) -> Parsed<Seq<Seq<u8>>> {
    parse_name(d, pos, MAX_POINTER_JUMPS as nat)
}

/// Length-prefixed labels, without the closing zero byte.  A label's length
/// is written as one byte: only its low eight bits are kept.
pub open spec fn encode_labels(ls: Seq<Seq<u8>>) -> Seq<u8>
    decreases ls.len(),
{
    if ls.len() == 0 {
        seq![]
    } else {
        seq![ls[0].len() as u8] + ls[0] + encode_labels(ls.drop_first())
    }
}

/// The wire form of a name: its labels, then a zero byte.
pub open spec fn encode_name(ls: Seq<Seq<u8>>) -> Seq<u8> {
    encode_labels(ls).push(0u8)
}

/// Every label has between 1 and 63 bytes, the labels that the wire format
/// can carry without compression.
pub open spec fn labels_fit(ls: Seq<Seq<u8>>) -> bool {
    forall|i: int| 0 <= i < ls.len() ==> 1 <= (#[trigger] ls[i]).len() <= 63
}

/// Encoding one more label appends its length byte and its bytes.
pub proof fn lemma_encode_labels_push(ls: Seq<Seq<u8>>, l: Seq<u8>)
    ensures
        encode_labels(ls.push(l)) == encode_labels(ls) + seq![l.len() as u8] + l,
    decreases ls.len(),
{
    if ls.len() == 0 {
        assert(ls.push(l).drop_first() =~= Seq::<Seq<u8>>::empty());
        assert(encode_labels(ls.push(l)) =~= seq![l.len() as u8] + l + encode_labels(
            Seq::<Seq<u8>>::empty(),
        ));
        assert(encode_labels(ls.push(l)) =~= encode_labels(ls) + seq![l.len() as u8] + l);
    } else {
        lemma_encode_labels_push(ls.drop_first(), l);
        assert(ls.push(l).drop_first() =~= ls.drop_first().push(l));
        assert(encode_labels(ls.push(l)) =~= encode_labels(ls) + seq![l.len() as u8] + l);
    }
}

/// The encoded length of labels: one length byte plus the bytes of each.
pub open spec fn labels_length(ls: Seq<Seq<u8>>) -> int
    decreases ls.len(),
{
    if ls.len() == 0 {
        0
    } else {
        labels_length(ls.drop_last()) + 1 + ls.last().len()
    }
}

/// `labels_length` measures `encode_labels`.
pub proof fn lemma_labels_length(ls: Seq<Seq<u8>>)
    ensures
        encode_labels(ls).len() == labels_length(ls),
    decreases ls.len(),
{
    if ls.len() > 0 {
        lemma_labels_length(ls.drop_last());
        lemma_encode_labels_push(ls.drop_last(), ls.last());
        assert(ls.drop_last().push(ls.last()) =~= ls);
    }
}

/// A longer run of labels never encodes shorter.
proof fn lemma_labels_length_prefix(ls: Seq<Seq<u8>>, i: int)
    requires
        0 <= i <= ls.len(),
    ensures
        labels_length(ls.take(i)) <= labels_length(ls),
    decreases ls.len() - i,
{
    if i < ls.len() {
        lemma_labels_length_prefix(ls, i + 1);
        assert(ls.take(i + 1).drop_last() =~= ls.take(i));
    } else {
        assert(ls.take(i) =~= ls);
    }
}

/// Decoding reads back what encoding wrote: wherever the wire form of a name
/// with labels of 1 to 63 well-formed UTF-8 bytes stands in a packet, the
/// name decoded there has the same labels and ends right after it, with any
/// pointer budget.
pub proof fn lemma_name_round_trip(d: Seq<u8>, p: int, ls: Seq<Seq<u8>>, fuel: nat)
    requires
        labels_fit(ls),
        crate::text::all_utf8(ls),
        0 <= p,
        p + encode_name(ls).len() <= d.len(),
        d.subrange(p, p + encode_name(ls).len()) == encode_name(ls),
    ensures
        parse_name(d, p, fuel) == Parsed::Done(ls, p + encode_name(ls).len()),
    decreases ls.len(),
{
    let e = encode_name(ls);
    assert(d[p] == e[0]);
    if ls.len() == 0 {
        assert(e =~= seq![0u8]);
        assert(ls =~= Seq::<Seq<u8>>::empty());
    } else {
        let l = ls[0];
        let rest = ls.drop_first();
        assert(e =~= seq![l.len() as u8] + l + encode_name(rest));
        assert(1 <= l.len() <= 63);
        assert(d[p] == l.len() as u8);
        let end = p + 1 + l.len();
        assert(d.subrange(p + 1, end) =~= l) by {
            assert forall|k: int| 0 <= k < l.len() implies d.subrange(p + 1, end)[k] == l[k] by {
                assert(d.subrange(p, p + e.len())[1 + k] == e[1 + k]);
            }
        }
        assert(labels_fit(rest));
        assert(crate::text::all_utf8(rest)) by {
            assert forall|i: int| 0 <= i < rest.len() implies valid_utf8(#[trigger] rest[i]) by {
                assert(rest[i] == ls[i + 1]);
            }
        }
        assert(valid_utf8(ls[0]));
        let er = encode_name(rest);
        assert(d.subrange(end, end + er.len()) =~= er) by {
            assert forall|k: int| 0 <= k < er.len() implies d.subrange(end, end + er.len())[k]
                == er[k] by {
                assert(d.subrange(p, p + e.len())[1 + l.len() + k] == e[1 + l.len() + k]);
            }
        }
        lemma_name_round_trip(d, end, rest, fuel);
        assert(d[p] as int == l.len());
        assert(p + e.len() == end + er.len());
        assert(seq![l] + rest =~= ls);
    }
}

/// A compression pointer stands for the name at the 14-bit offset its two
/// bytes hold: the low six bits of the first byte, then the eight bits of
/// the second.  Wherever the wire form of a name stands at an offset `t`
/// below 16384, the two bytes `0xC0 + t / 256` and `t % 256` decode to that
/// name, and the read ends right after the two bytes.
pub proof fn lemma_pointer_reads_target(d: Seq<u8>, pos: int, t: int, ls: Seq<Seq<u8>>, fuel: nat)
    requires
        0 <= t < 0x4000,
        0 <= pos,
        pos + 2 <= d.len(),
        d[pos] as int == 0xC0 + t / 256,
        d[pos + 1] as int == t % 256,
        labels_fit(ls),
        crate::text::all_utf8(ls),
        t + encode_name(ls).len() <= d.len(),
        d.subrange(t, t + encode_name(ls).len()) == encode_name(ls),
    ensures
        parse_name(d, pos, fuel + 1) == Parsed::Done(ls, pos + 2),
        name_at(d, pos) == Parsed::Done(ls, pos + 2),
{
    assert((d[pos] as int - 0xC0) * 256 + d[pos + 1] as int == t) by (nonlinear_arith)
        requires
            d[pos] as int == 0xC0 + t / 256,
            d[pos + 1] as int == t % 256,
            0 <= t,
    ;
    lemma_name_round_trip(d, t, ls, fuel);
    lemma_name_round_trip(d, t, ls, (MAX_POINTER_JUMPS - 1) as nat);
    assert(parse_name(d, pos, fuel + 1) == Parsed::Done(ls, pos + 2));
    assert(parse_name(d, pos, ((MAX_POINTER_JUMPS - 1) as nat + 1) as nat) == Parsed::Done(
        ls,
        pos + 2,
    ));
}

impl Name {
    proof fn lemma_view_push(v: Seq<String>, s: String)
        ensures
            v.push(s).map_values(|l: String| text_bytes(l)) == v.map_values(
                |l: String| text_bytes(l),
            ).push(text_bytes(s)),
    {
        assert(v.push(s).map_values(|l: String| text_bytes(l)) =~= v.map_values(
            |l: String| text_bytes(l),
        ).push(text_bytes(s)));
    }

    /// The labels of a name are well-formed UTF-8.
    pub proof fn lemma_labels_utf8(&self)
        ensures
            forall|i: int| 0 <= i < self@.len() ==> valid_utf8(#[trigger] self@[i]),
    {
        broadcast use vstd::utf8::encode_utf8_valid_utf8;

        assert forall|i: int| 0 <= i < self@.len() implies valid_utf8(#[trigger] self@[i]) by {
            assert(self@[i] == encode_utf8(self.0@[i]@));
        }
    }

    /// The root name, with no labels.
    pub fn new() -> (r: Self)
        ensures
            r@ == Seq::<Seq<u8>>::empty(),
    {
        let r = Name(Vec::new());
        assert(r@ =~= Seq::<Seq<u8>>::empty());
        r
    }

    /// The name with the given labels, in order.
    pub fn from_labels(labels: &[&str]) -> (r: Self)
        ensures
            r@ == labels@.map_values(|s: &str| s.spec_bytes()),
    {
        let mut v: Vec<Label> = Vec::new();
        let mut i: usize = 0;
        while i < labels.len()
            invariant
                0 <= i <= labels@.len(),
                v@.map_values(|l: String| text_bytes(l)) =~= labels@.take(i as int).map_values(
                    |s: &str| s.spec_bytes(),
                ),
            decreases labels@.len() - i,
        {
            let s: String = labels[i].to_owned();
            proof {
                Self::lemma_view_push(v@, s);
            }
            v.push(s);
            i = i + 1;
            assert(labels@.take(i as int).map_values(|s: &str| s.spec_bytes()) =~= labels@.take(
                (i - 1) as int,
            ).map_values(|s: &str| s.spec_bytes()).push(labels@[i - 1].spec_bytes()));
        }
        assert(labels@.take(i as int) =~= labels@);
        Name(v)
    }

    /// The length of the name in its uncompressed wire form.
    pub fn wire_length(&self) -> (r: usize)
        requires
            encode_name(self@).len() <= usize::MAX,
        ensures
            r == encode_name(self@).len(),
    {
        let ghost ls = self@;
        proof {
            lemma_labels_length(ls);
        }
        let mut acc: usize = 0;
        let mut i: usize = 0;
        while i < self.0.len()
            invariant
                0 <= i <= ls.len(),
                ls == self@,
                self@.len() == self.0@.len(),
                encode_labels(ls).len() + 1 <= usize::MAX,
                encode_labels(ls).len() == labels_length(ls),
                acc == labels_length(ls.take(i as int)),
            decreases ls.len() - i,
        {
            let n: usize = self.0[i].as_str().len();
            proof {
                assert(ls.take(i + 1).drop_last() =~= ls.take(i as int));
                assert(ls[i as int] == text_bytes(self.0@[i as int]));
                lemma_labels_length_prefix(ls, i + 1);
            }
            acc = acc + 1 + n;
            i = i + 1;
        }
        assert(ls.take(i as int) =~= ls);
        acc + 1
    }

    /// Whether the uncompressed wire form of the name is `n` bytes long.
    pub fn wire_length_is(&self, n: u16) -> (r: bool)
        ensures
            r == (encode_name(self@).len() == n),
    {
        let ghost ls = self@;
        proof {
            lemma_labels_length(ls);
        }
        let limit: usize = n as usize;
        let mut acc: usize = 0;
        let mut i: usize = 0;
        while i < self.0.len()
            invariant
                0 <= i <= ls.len(),
                ls == self@,
                self@.len() == self.0@.len(),
                limit == n,
                acc <= limit,
                encode_labels(ls).len() == labels_length(ls),
                acc == labels_length(ls.take(i as int)),
            decreases ls.len() - i,
        {
            let len: usize = self.0[i].as_str().as_bytes().len();
            proof {
                assert(ls.take(i + 1).drop_last() =~= ls.take(i as int));
                assert(ls[i as int] == text_bytes(self.0@[i as int]));
                lemma_labels_length_prefix(ls, i + 1);
            }
            if len >= limit || acc + 1 + len > limit {
                return false;
            }
            acc = acc + 1 + len;
            i = i + 1;
        }
        assert(ls.take(i as int) =~= ls);
        acc + 1 == limit
    }

    /// The length of the uncompressed wire form, modulo 65536.
    pub fn wire_length_low16(&self) -> (r: u16)
        ensures
            r == encode_name(self@).len() % 65536,
    {
        let ghost ls = self@;
        proof {
            lemma_labels_length(ls);
        }
        let mut acc: usize = 0;
        let mut i: usize = 0;
        while i < self.0.len()
            invariant
                0 <= i <= ls.len(),
                ls == self@,
                self@.len() == self.0@.len(),
                acc < 65536,
                encode_labels(ls).len() == labels_length(ls),
                acc == labels_length(ls.take(i as int)) % 65536,
            decreases ls.len() - i,
        {
            let len: usize = self.0[i].as_str().as_bytes().len();
            proof {
                assert(ls.take(i + 1).drop_last() =~= ls.take(i as int));
                assert(ls[i as int] == text_bytes(self.0@[i as int]));
                let a = labels_length(ls.take(i as int));
                vstd::arithmetic::div_mod::lemma_add_mod_noop(a, 1 + len as int, 65536);
                vstd::arithmetic::div_mod::lemma_add_mod_noop(1, len as int, 65536);
                vstd::arithmetic::div_mod::lemma_add_mod_noop(acc as int, 1 + len as int % 65536, 65536);
                vstd::arithmetic::div_mod::lemma_mod_twice(1 + len as int, 65536);
            }
            acc = (acc + 1 + len % 65536) % 65536;
            i = i + 1;
        }
        assert(ls.take(i as int) =~= ls);
        proof {
            vstd::arithmetic::div_mod::lemma_add_mod_noop(labels_length(ls), 1, 65536);
        }
        ((acc + 1) % 65536) as u16
    }

    /// Appends a label at the end (the top-level side) of the name.
    pub fn push(&mut self, label: Label)
        ensures
            final(self)@ == old(self)@.push(text_bytes(label)),
    {
        proof {
            Self::lemma_view_push(self.0@, label);
        }
        self.0.push(label)
    }

    /// Whether two names have the same labels.
    pub fn same_as(&self, other: &Name) -> (r: bool)
        ensures
            r == (self@ == other@),
    {
        if self.0.len() != other.0.len() {
            assert(self@.len() != other@.len());
            return false;
        }
        let mut i: usize = 0;
        while i < self.0.len()
            invariant
                0 <= i <= self.0@.len(),
                self.0@.len() == other.0@.len(),
                forall|k: int| 0 <= k < i ==> self@[k] == other@[k],
            decreases self.0@.len() - i,
        {
            let same: bool = self.0[i] == other.0[i];
            if !same {
                assert(self@[i as int] == encode_utf8(self.0@[i as int]@));
                assert(other@[i as int] == encode_utf8(other.0@[i as int]@));
                proof {
                    encode_utf8_decode_utf8(self.0@[i as int]@);
                    encode_utf8_decode_utf8(other.0@[i as int]@);
                }
                assert(decode_utf8(self@[i as int]) == self.0@[i as int]@);
                assert(decode_utf8(other@[i as int]) == other.0@[i as int]@);
                assert(self@[i as int] != other@[i as int]);
                return false;
            }
            assert(self@[i as int] == encode_utf8(self.0@[i as int]@));
            assert(other@[i as int] == encode_utf8(other.0@[i as int]@));
            i = i + 1;
        }
        assert(self@ =~= other@);
        true
    }

    /// A copy of the name.
    pub fn duplicate(&self) -> (r: Name)
        ensures
            r@ == self@,
    {
        let mut v: Vec<Label> = Vec::new();
        let mut i: usize = 0;
        while i < self.0.len()
            invariant
                0 <= i <= self.0@.len(),
                v@.len() == i,
                forall|k: int| 0 <= k < i ==> #[trigger] v@[k]@ == self.0@[k]@,
            decreases self.0@.len() - i,
        {
            v.push(self.0[i].clone());
            i = i + 1;
        }
        let r = Name(v);
        assert(r@ =~= self@);
        r
    }

    /// The labels joined by dots, as in `www.example.com`; the root gives the
    /// empty string.
    pub fn to_string(&self) -> (r: String)
        ensures
            encode_utf8(r@) == join_dot(self@),
    {
        join_with_dots(&self.0)
    }

    /// Decodes a name at the reader's position, following at most `fuel`
    /// pointers; pointers are followed in a loop, so deep chains take no stack.
    pub(crate) fn decode_with_fuel(reader: &mut PacketReader, fuel: u32) -> (r: Result<Name, Stop>)
        ensures
            final(reader).packet() == old(reader).packet(),
            match parse_name(old(reader).packet(), old(reader).offset(), fuel as nat) {
                Parsed::Done(ls, end) => r matches Ok(n) && n@ == ls && final(reader).offset() == end,
                Parsed::Eof => r == Err::<Name, Stop>(Stop::Eof) && final(reader).offset()
                    == old(reader).packet().len(),
                Parsed::Fault => r == Err::<Name, Stop>(Stop::Fault),
            },
    {
        let ghost d = reader.packet();
        let ghost start = reader.offset();
        let mut labels: Vec<Label> = Vec::new();
        let mut left: u32 = fuel;
        let mut resume_at: Option<u64> = None;
        loop
            invariant
                reader.packet() == d,
                d == old(reader).packet(),
                start == old(reader).offset(),
                left <= fuel,
                parse_name(d, start, fuel as nat) == resumed(
                    labels@.map_values(|l: String| text_bytes(l)),
                    resume_at,
                    parse_name(d, reader.offset(), left as nat),
                ),
            decreases left, d.len() - reader.offset(),
        {
            let ghost pos = reader.offset();
            let ghost ls = labels@.map_values(|l: String| text_bytes(l));
            let first: u8 = match reader.read_u8() {
                Ok(b) => b,
                Err(_) => {
                    return Err(Stop::Eof);
                },
            };
            if first >= 0xC0 {
                let second: u8 = match reader.read_u8() {
                    Ok(b) => b,
                    Err(_) => {
                        return Err(Stop::Eof);
                    },
                };
                let after: u64 = reader.position();
                if left == 0 {
                    return Err(Stop::Fault);
                }
                let offset: u64 = (first - 0xC0) as u64 * 256 + second as u64;
                reader.set_position(offset);
                left = left - 1;
                proof {
                    lemma_resumed_pointer(ls, resume_at, after as int, parse_name(d, offset as int, left as nat));
                }
                if resume_at.is_none() {
                    resume_at = Some(after);
                }
            } else if first == 0 {
                if let Some(a) = resume_at {
                    reader.set_position(a);
                }
                assert(ls + Seq::<Seq<u8>>::empty() =~= ls);
                return Ok(Name(labels));
            } else {
                let size: usize = first as usize;
                let buf: Vec<u8> = match reader.read_vec(size) {
                    Ok(b) => b,
                    Err(_) => {
                        return Err(Stop::Eof);
                    },
                };
                let label: Label = match string_from_utf8(buf) {
                    Some(s) => s,
                    None => {
                        return Err(Stop::Fault);
                    },
                };
                proof {
                    Self::lemma_view_push(labels@, label);
                    let b = d.subrange(pos + 1, pos + 1 + first as int);
                    assert(ls.push(b) =~= ls + seq![b]);
                    assert(forall|x: Seq<Seq<u8>>| (ls + seq![b]) + x =~= ls + (seq![b] + x));
                }
                labels.push(label);
            }
        }
    }

    /// Whether `decode` may be called at the reader's position: the name
    /// there has no label that is not UTF-8 and no endless pointer chain.
    pub fn decodes_without_fault(reader: &PacketReader) -> (r: bool)
        ensures
            r == !(name_at(reader.packet(), reader.offset()) is Fault),
    {
        let mut probe = reader.copy();
        match Self::decode_with_fuel(&mut probe, MAX_POINTER_JUMPS) {
            Err(Stop::Fault) => false,
            _ => true,
        }
    }

    /// Decodes a name at the reader's position: a compressed name leaves
    /// the reader just past its first pointer.
    pub fn decode(reader: &mut PacketReader) -> (r: Result<Name, IoError>)
        requires
            !(name_at(old(reader).packet(), old(reader).offset()) is Fault),
        ensures
            final(reader).packet() == old(reader).packet(),
            match name_at(old(reader).packet(), old(reader).offset()) {
                Parsed::Done(ls, end) => r matches Ok(n) && n@ == ls && final(reader).offset() == end,
                _ => r matches Err(e) && e.kind == ErrorKind::UnexpectedEof && final(reader).offset()
                    == old(reader).packet().len(),
            },
    {
        match Self::decode_with_fuel(reader, MAX_POINTER_JUMPS) {
            Ok(n) => Ok(n),
            Err(_) => Err(IoError::unexpected_eof()),
        }
    }

    /// Writes the name uncompressed; the count is the bytes written.
    pub fn encode(&self, writer: &mut PacketWriter) -> (r: WriteResult)
        ensures
            final(writer)@ == old(writer)@ + encode_name(self@),
            r == Ok::<usize, IoError>(encode_name(self@).len() as usize),
    {
        if self.0.len() == 0 {
            let r = writer.write_u8(0);
            assert(encode_name(self@) =~= seq![0u8]);
            return r;
        }
        let ghost ls = self@;
        let ghost base = writer@;
        let start: usize = writer.len();
        let mut i: usize = 0;
        while i < self.0.len()
            invariant
                0 <= i <= ls.len(),
                ls == self@,
                self@.len() == self.0@.len(),
                writer@ == base + encode_labels(ls.take(i as int)),
            decreases ls.len() - i,
        {
            let label: &str = self.0[i].as_str();
            let bytes: &[u8] = label.as_bytes();
            let size: u8 = bytes.len() as u8;
            let _ = writer.write_u8(size);
            let _ = writer.write(bytes);
            proof {
                assert(ls[i as int] == text_bytes(self.0@[i as int]));
                lemma_encode_labels_push(ls.take(i as int), ls[i as int]);
                assert(ls.take(i + 1) =~= ls.take(i as int).push(ls[i as int]));
            }
            i = i + 1;
        }
        let _ = writer.write_u8(0);
        assert(ls.take(i as int) =~= ls);
        assert(writer@ =~= base + encode_name(ls));
        let end: usize = writer.len();
        Ok(end - start)
    }
}

} // verus!
