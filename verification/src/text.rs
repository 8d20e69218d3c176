//! Turning label bytes into strings and joining labels with dots.
use vstd::prelude::*;
use vstd::utf8::*;

verus! {

broadcast use vstd::utf8::valid_utf8_concat, vstd::utf8::encode_utf8_valid_utf8;

/// The UTF-8 bytes of a string.
pub open spec fn text_bytes(s: String) -> Seq<u8> {
    encode_utf8(s@)
}

/// The byte of the label separator `.`.
pub open spec fn dot() -> u8 {
    0x2e
}

/// Labels joined by dots: `["www", "example"]` gives `www.example`.
pub open spec fn join_dot(ls: Seq<Seq<u8>>) -> Seq<u8>
    decreases ls.len(),
{
    if ls.len() == 0 {
        seq![]
    } else if ls.len() == 1 {
        ls[0]
    } else {
        join_dot(ls.drop_last()) + seq![dot()] + ls.last()
    }
}

/// Every label of `ls` is well-formed UTF-8.
pub open spec fn all_utf8(ls: Seq<Seq<u8>>) -> bool {
    forall|i: int| 0 <= i < ls.len() ==> valid_utf8(#[trigger] ls[i])
}

/// `String::from_utf8`, made total: the string for well-formed UTF-8 bytes, else nothing.
///
/// Trusted: `String::from_utf8` accepts a byte vector exactly when it is
/// well-formed UTF-8, and the string it returns holds those very bytes.
#[verifier::external_body]
pub(crate) fn string_from_utf8(bytes: Vec<u8>) -> (r: Option<String>)
    ensures
        r is Some <==> valid_utf8(bytes@),
        r matches Some(s) ==> encode_utf8(s@) == bytes@,
{
    String::from_utf8(bytes).ok()
}

/// The single separator byte is well-formed UTF-8.
proof fn lemma_dot_utf8()
    ensures
        valid_utf8(seq![dot()]),
{
    let b: Seq<u8> = seq![dot()];
    assert(valid_first_scalar(b));
    assert(pop_first_scalar(b) =~= Seq::<u8>::empty());
    reveal_with_fuel(valid_utf8, 2);
}

/// Joining well-formed labels gives well-formed UTF-8.
proof fn lemma_join_utf8(ls: Seq<Seq<u8>>)
    requires
        all_utf8(ls),
    ensures
        valid_utf8(join_dot(ls)),
    decreases ls.len(),
{
    if ls.len() == 0 {
        reveal_with_fuel(valid_utf8, 1);
    } else if ls.len() == 1 {
        assert(valid_utf8(ls[0]));
    } else {
        lemma_dot_utf8();
        assert(all_utf8(ls.drop_last()));
        lemma_join_utf8(ls.drop_last());
        assert(valid_utf8(ls[ls.len() - 1]));
        let a = join_dot(ls.drop_last());
        assert(valid_utf8(a + seq![dot()]));
        assert(valid_utf8(a + seq![dot()] + ls.last()));
    }
}

/// The strings of `labels` joined by dots.
pub(crate) fn join_with_dots(labels: &Vec<String>) -> (r: String)
    ensures
        encode_utf8(r@) == join_dot(labels@.map_values(|l: String| text_bytes(l))),
{
    let ghost ls = labels@.map_values(|l: String| text_bytes(l));
    let mut bytes: Vec<u8> = Vec::new();
    let mut i: usize = 0;
    while i < labels.len()
        invariant
            0 <= i <= labels@.len(),
            ls == labels@.map_values(|l: String| text_bytes(l)),
            bytes@ == join_dot(ls.take(i as int)),
        decreases labels@.len() - i,
    {
        if i > 0 {
            bytes.push(0x2e);
        }
        let text: &[u8] = labels[i].as_str().as_bytes();
        let mut k: usize = 0;
        let ghost before = bytes@;
        while k < text.len()
            invariant
                0 <= k <= text@.len(),
                bytes@ == before + text@.subrange(0, k as int),
            decreases text@.len() - k,
        {
            bytes.push(text[k]);
            k = k + 1;
            assert(bytes@ =~= before + text@.subrange(0, k as int));
        }
        assert(text@.subrange(0, k as int) =~= text@);
        assert(ls.take(i + 1).drop_last() =~= ls.take(i as int));
        assert(ls.take(i + 1).last() == ls[i as int]);
        if i == 0 {
            assert(before =~= Seq::<u8>::empty());
            assert(bytes@ =~= join_dot(ls.take(1)));
        }
        i = i + 1;
    }
    assert(ls.take(i as int) =~= ls);
    proof {
        assert forall|j: int| 0 <= j < ls.len() implies valid_utf8(#[trigger] ls[j]) by {
            assert(ls[j] == encode_utf8(labels@[j]@));
        }
        lemma_join_utf8(ls);
    }
    match string_from_utf8(bytes) {
        Some(s) => s,
        None => {
            assert(false);
            String::new()
        },
    }
}

} // verus!
