//! An earlier form of domain names: the dotted text of the labels.
use vstd::prelude::*;
use vstd::string::*;
use vstd::utf8::*;

use crate::dns::name::{MAX_POINTER_JUMPS, encode_name, labels_fit};
use crate::io::{ErrorKind, IoError};
use crate::reader::{PacketReader, Parsed, Stop};
use crate::text::{join_dot, join_with_dots, string_from_utf8, text_bytes};

verus! {

/// A domain name held as dotted text, as in `www.example.com`.
#[derive(Debug, PartialEq, Eq)]
pub struct Name(String);

impl View for Name {
    type V = Seq<u8>;

    /// The UTF-8 bytes of the text.
    closed spec fn view(&self) -> Seq<u8> {
        text_bytes(self.0)
    }
}

/// The pieces read at `pos` whose dotted join is the name: each label, and
/// for a compression pointer the dotted name it leads to as one piece; the
/// offset is just past the name where it was read.
pub open spec fn parse_dotted(d: Seq<u8>, pos: int, fuel: nat) -> Parsed<Seq<Seq<u8>>>
    decreases fuel, d.len() - pos,
{
    if pos < 0 || pos >= d.len() {
        Parsed::Eof
    } else if d[pos] >= 0xC0 {
        if pos + 1 >= d.len() {
            Parsed::Eof
        } else if fuel == 0 {
            Parsed::Fault
        } else {
            let target = (d[pos] as int - 0xC0) * 256 + d[pos + 1] as int;
            match parse_dotted(d, target, (fuel - 1) as nat) {
                Parsed::Done(ls, _) => Parsed::Done(seq![join_dot(ls)], pos + 2),
                Parsed::Eof => Parsed::Eof,
                Parsed::Fault => Parsed::Fault,
            }
        }
    } else if d[pos] == 0 {
        Parsed::Done(seq![], pos + 1)
    } else {
        let end = pos + 1 + d[pos] as int;
        if end > d.len() {
            Parsed::Eof
        } else {
            let label = d.subrange(pos + 1, end);
            if !valid_utf8(label) {
                Parsed::Fault
            } else {
                crate::dns::name::prepend_labels(seq![label], parse_dotted(d, end, fuel))
            }
        }
    }
}

/// Reading an uncompressed name gives its labels as the pieces: wherever
/// the wire form of a name with labels of 1 to 63 well-formed UTF-8 bytes
/// stands, it reads back with the same labels and ends right after it.
pub proof fn lemma_dotted_round_trip(d: Seq<u8>, p: int, ls: Seq<Seq<u8>>, fuel: nat)
    requires
        labels_fit(ls),
        crate::text::all_utf8(ls),
        0 <= p,
        p + encode_name(ls).len() <= d.len(),
        d.subrange(p, p + encode_name(ls).len()) == encode_name(ls),
    ensures
        parse_dotted(d, p, fuel) == Parsed::Done(ls, p + encode_name(ls).len()),
    decreases ls.len(),
{
    let e = encode_name(ls);
    assert(d[p] == e[0]);
    if ls.len() == 0 {
        assert(e =~= seq![0u8]);
        assert(ls =~= Seq::<Seq<u8>>::empty());
    } else {
        let l = ls[0];
        let rest = ls.drop_first();
        assert(e =~= seq![l.len() as u8] + l + encode_name(rest));
        assert(1 <= l.len() <= 63);
        assert(d[p] == l.len() as u8);
        let end = p + 1 + l.len();
        assert(d.subrange(p + 1, end) =~= l) by {
            assert forall|k: int| 0 <= k < l.len() implies d.subrange(p + 1, end)[k] == l[k] by {
                assert(d.subrange(p, p + e.len())[1 + k] == e[1 + k]);
            }
        }
        assert(labels_fit(rest));
        assert(crate::text::all_utf8(rest)) by {
            assert forall|i: int| 0 <= i < rest.len() implies valid_utf8(#[trigger] rest[i]) by {
                assert(rest[i] == ls[i + 1]);
            }
        }
        assert(valid_utf8(ls[0]));
        let er = encode_name(rest);
        assert(d.subrange(end, end + er.len()) =~= er) by {
            assert forall|k: int| 0 <= k < er.len() implies d.subrange(end, end + er.len())[k]
                == er[k] by {
                assert(d.subrange(p, p + e.len())[1 + l.len() + k] == e[1 + l.len() + k]);
            }
        }
        lemma_dotted_round_trip(d, end, rest, fuel);
        assert(d[p] as int == l.len());
        assert(p + e.len() == end + er.len());
        assert(seq![l] + rest =~= ls);
    }
}

/// A compression pointer stands for the name at the 14-bit offset its two
/// bytes hold: the low six bits of the first byte, then the eight bits of
/// the second.  Wherever the wire form of a name stands at an offset `t`
/// below 16384, the two bytes `0xC0 + t / 256` and `t % 256` read as that
/// name's dotted text, and the read ends right after the two bytes.
pub proof fn lemma_dotted_pointer_reads_target(
    d: Seq<u8>,
    pos: int,
    t: int,
    ls: Seq<Seq<u8>>,
    fuel: nat,
)
    requires
        0 <= t < 0x4000,
        0 <= pos,
        pos + 2 <= d.len(),
        d[pos] as int == 0xC0 + t / 256,
        d[pos + 1] as int == t % 256,
        labels_fit(ls),
        crate::text::all_utf8(ls),
        t + encode_name(ls).len() <= d.len(),
        d.subrange(t, t + encode_name(ls).len()) == encode_name(ls),
    ensures
        parse_dotted(d, pos, fuel + 1) == Parsed::Done(seq![join_dot(ls)], pos + 2),
        dotted_at(d, pos) == Parsed::Done(join_dot(ls), pos + 2),
{
    assert((d[pos] as int - 0xC0) * 256 + d[pos + 1] as int == t) by (nonlinear_arith)
        requires
            d[pos] as int == 0xC0 + t / 256,
            d[pos + 1] as int == t % 256,
            0 <= t,
    ;
    lemma_dotted_round_trip(d, t, ls, fuel);
    lemma_dotted_round_trip(d, t, ls, (MAX_POINTER_JUMPS - 1) as nat);
    assert(parse_dotted(d, pos, fuel + 1) == Parsed::Done(seq![join_dot(ls)], pos + 2));
    assert(parse_dotted(d, pos, ((MAX_POINTER_JUMPS - 1) as nat + 1) as nat) == Parsed::Done(
        seq![join_dot(ls)],
        pos + 2,
    ));
    assert(join_dot(seq![join_dot(ls)]) == join_dot(ls));
}

/// The dotted reading and the label decode of a name stop the same way:
/// both fault, or both run out of packet, on the same bytes.
pub proof fn lemma_dotted_like_labels(d: Seq<u8>, pos: int, fuel: nat)
    ensures
        (parse_dotted(d, pos, fuel) is Fault) == (crate::dns::name::parse_name(d, pos, fuel) is Fault),
        (parse_dotted(d, pos, fuel) is Eof) == (crate::dns::name::parse_name(d, pos, fuel) is Eof),
    decreases fuel, d.len() - pos,
{
    if 0 <= pos < d.len() {
        if d[pos] >= 0xC0 {
            if pos + 1 < d.len() && fuel > 0 {
                let target = (d[pos] as int - 0xC0) * 256 + d[pos + 1] as int;
                lemma_dotted_like_labels(d, target, (fuel - 1) as nat);
            }
        } else if d[pos] != 0 {
            let end = pos + 1 + d[pos] as int;
            if end <= d.len() && valid_utf8(d.subrange(pos + 1, end)) {
                lemma_dotted_like_labels(d, end, fuel);
            }
        }
    }
}

/// Giving up after `MAX_POINTER_JUMPS` pointers refuses only dotted names
/// that no budget reads: such a name meets a label that is not UTF-8, or
/// follows pointers that come back to where they were, forever.
pub proof fn lemma_dotted_fault_is_final(d: Seq<u8>, pos: int, fuel: nat)
    requires
        parse_dotted(d, pos, MAX_POINTER_JUMPS as nat) is Fault,
    ensures
        parse_dotted(d, pos, fuel) is Fault,
{
    lemma_dotted_like_labels(d, pos, MAX_POINTER_JUMPS as nat);
    crate::dns::name::lemma_fault_is_final(d, pos, fuel);
    lemma_dotted_like_labels(d, pos, fuel);
}

/// The dotted name at `pos`.
pub open spec fn dotted_at(d: Seq<u8>, pos: int) -> Parsed<Seq<u8>> {
    match parse_dotted(d, pos, MAX_POINTER_JUMPS as nat) {
        Parsed::Done(ls, end) => Parsed::Done(join_dot(ls), end),
        Parsed::Eof => Parsed::Eof,
        Parsed::Fault => Parsed::Fault,
    }
}

impl Name {
    proof fn lemma_view_push(v: Seq<String>, s: String)
        ensures
            v.push(s).map_values(|l: String| text_bytes(l)) == v.map_values(
                |l: String| text_bytes(l),
            ).push(text_bytes(s)),
    {
        assert(v.push(s).map_values(|l: String| text_bytes(l)) =~= v.map_values(
            |l: String| text_bytes(l),
        ).push(text_bytes(s)));
    }

    fn read_with_fuel(reader: &mut PacketReader, fuel: u32) -> (r: Result<Name, Stop>)
        ensures
            final(reader).packet() == old(reader).packet(),
            match parse_dotted(old(reader).packet(), old(reader).offset(), fuel as nat) {
                Parsed::Done(ls, end) => r matches Ok(n) && n@ == join_dot(ls)
                    && final(reader).offset() == end,
                Parsed::Eof => r == Err::<Name, Stop>(Stop::Eof) && final(reader).offset()
                    == old(reader).packet().len(),
                Parsed::Fault => r == Err::<Name, Stop>(Stop::Fault),
            },
        decreases fuel,
    {
        let ghost d = reader.packet();
        let ghost start = reader.offset();
        let mut labels: Vec<String> = Vec::new();
        loop
            invariant
                reader.packet() == d,
                d == old(reader).packet(),
                start == old(reader).offset(),
                parse_dotted(d, start, fuel as nat) == crate::dns::name::prepend_labels(
                    labels@.map_values(|l: String| text_bytes(l)),
                    parse_dotted(d, reader.offset(), fuel as nat),
                ),
            decreases d.len() - reader.offset(),
        {
            let ghost pos = reader.offset();
            let ghost ls = labels@.map_values(|l: String| text_bytes(l));
            let first: u8 = match reader.read_u8() {
                Ok(b) => b,
                Err(_) => {
                    return Err(Stop::Eof);
                },
            };
            if first >= 0xC0 {
                let second: u8 = match reader.read_u8() {
                    Ok(b) => b,
                    Err(_) => {
                        return Err(Stop::Eof);
                    },
                };
                let after: u64 = reader.position();
                if fuel == 0 {
                    return Err(Stop::Fault);
                }
                let offset: u64 = (first - 0xC0) as u64 * 256 + second as u64;
                reader.set_position(offset);
                let name: Name = match Self::read_with_fuel(reader, fuel - 1) {
                    Ok(n) => n,
                    Err(e) => {
                        return Err(e);
                    },
                };
                reader.set_position(after);
                proof {
                    Self::lemma_view_push(labels@, name.0);
                    assert(ls.push(name@) =~= ls + seq![name@]);
                }
                labels.push(name.0);
                let joined: String = join_with_dots(&labels);
                return Ok(Name(joined));
            } else if first == 0 {
                assert(ls + Seq::<Seq<u8>>::empty() =~= ls);
                let joined: String = join_with_dots(&labels);
                return Ok(Name(joined));
            } else {
                let size: usize = first as usize;
                let buf: Vec<u8> = match reader.read_vec(size) {
                    Ok(b) => b,
                    Err(_) => {
                        return Err(Stop::Eof);
                    },
                };
                let label: String = match string_from_utf8(buf) {
                    Some(s) => s,
                    None => {
                        return Err(Stop::Fault);
                    },
                };
                proof {
                    Self::lemma_view_push(labels@, label);
                    let b = d.subrange(pos + 1, pos + 1 + first as int);
                    assert(ls.push(b) =~= ls + seq![b]);
                    assert(forall|x: Seq<Seq<u8>>| (ls + seq![b]) + x =~= ls + (seq![b] + x));
                }
                labels.push(label);
            }
        }
    }

    /// Whether `read` may be called at the reader's position: the name there
    /// has no label that is not UTF-8 and no endless pointer chain.
    pub fn reads_without_fault(reader: &PacketReader) -> (r: bool)
        ensures
            r == !(dotted_at(reader.packet(), reader.offset()) is Fault),
    {
        proof {
            lemma_dotted_like_labels(reader.packet(), reader.offset(), MAX_POINTER_JUMPS as nat);
        }
        crate::dns::name::Name::decodes_without_fault(reader)
    }

    /// Reads a name as dotted text: labels until a zero byte; a compression
    /// pointer adds the dotted name it leads to as the last piece, and the
    /// reader then stands just past the pointer.
    pub fn read(reader: &mut PacketReader) -> (r: Result<Name, IoError>)
        requires
            !(dotted_at(old(reader).packet(), old(reader).offset()) is Fault),
        ensures
            final(reader).packet() == old(reader).packet(),
            match dotted_at(old(reader).packet(), old(reader).offset()) {
                Parsed::Done(text, end) => r matches Ok(n) && n@ == text && final(reader).offset()
                    == end,
                _ => r matches Err(e) && e.kind == ErrorKind::UnexpectedEof && final(reader).offset()
                    == old(reader).packet().len(),
            },
    {
        match Self::read_with_fuel(reader, MAX_POINTER_JUMPS) {
            Ok(n) => Ok(n),
            Err(_) => Err(IoError::unexpected_eof()),
        }
    }

    /// The name with the given dotted text.
    pub fn from(value: &str) -> (r: Name)
        ensures
            r@ == value.spec_bytes(),
    {
        Name(value.to_owned())
    }
}

} // verus!
