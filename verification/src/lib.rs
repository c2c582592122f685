//! Pinyin input method core: syllable segmentation, the dictionary candidate lattice, the
//! composition state machine, and the pure decisions of the daemon and the model service.
use vstd::prelude::*;

pub mod code_lexicon;
pub mod context;
pub mod daemon;
pub mod dict_text;
pub mod inference;
pub mod lattice;
pub mod lexicon;
pub mod order;
pub mod paths;
pub mod predict;
pub mod protocol;
pub mod scan;
pub mod service;
pub mod settings;
pub mod state;
pub mod syllable;
pub mod text;
pub mod user_freq;

verus! {

/// The characters of `s` that the composition keeps: each is ASCII-lower-cased, and lowercase
/// letters and apostrophes (forced syllable boundaries) are kept, in order.
pub open spec fn composition_chars(s: Seq<char>) -> Seq<char>
    decreases s.len(),
{
    if s.len() == 0 {
        seq![]
    } else {
        let c = text::ascii_lower(s.last());
        composition_chars(s.drop_last()) + if text::is_lower_letter(c) || c == '\'' {
            seq![c]
        } else {
            seq![]
        }
    }
}

/// Keeps lowercase letters and apostrophes (forced syllable boundaries), lower-casing ASCII
/// capitals first.
pub fn normalize_input(input: &str) -> (r: String)
    ensures
        r@ == composition_chars(input@),
{
    let v = text::chars_of(input);
    let mut r = String::new();
    let mut i: usize = 0;
    while i < v.len()
        invariant
            i <= v@.len(),
            v@ == input@,
            r@ == composition_chars(v@.take(i as int)),
        decreases v.len() - i,
    {
        proof {
            assert(v@.take(i + 1).drop_last() =~= v@.take(i as int));
        }
        let c = text::to_ascii_lower(v[i]);
        if ('a' <= c && c <= 'z') || c == '\'' {
            text::push_char(&mut r, c);
        } else {
            proof {
                assert(r@ =~= r@ + Seq::<char>::empty());
            }
        }
        i = i + 1;
    }
    proof {
        assert(v@.take(v@.len() as int) =~= v@);
    }
    r
}

} // verus!
