//! Which header images may serve as the play scene's default background.

use vstd::prelude::*;
use vstd::string::StringSliceAdditionalSpecFns;
use vstd::utf8::encode_utf8;

use crate::bms::model::{BmsData, ChartModel};

verus! {

/// `s` followed by `p` where `p` is not empty.
pub open spec fn push_nonempty(s: Seq<Seq<u8>>, p: Seq<u8>) -> Seq<Seq<u8>> {
    if p.len() > 0 {
        s.push(p)
    } else {
        s
    }
}

/// The default-background candidates of a chart, best first: `#BACKBMP`,
/// then `#STAGEFILE`, then `#BANNER`, leaving out those that are empty.
pub open spec fn background_candidates(m: ChartModel) -> Seq<Seq<u8>> {
    push_nonempty(push_nonempty(push_nonempty(Seq::empty(), m.backbmp), m.stagefile), m.banner)
}

proof fn lemma_encode_empty(s: Seq<char>)
    ensures
        (encode_utf8(s).len() == 0) == (s.len() == 0),
{
    if s.len() > 0 {
        assert(encode_utf8(s) == vstd::utf8::encode_scalar(s[0] as u32) + encode_utf8(s.drop_first()));
    }
}

fn push_text<'a>(r: &mut Vec<&'a str>, p: &'a str)
    ensures
        final(r)@.map_values(|s: &str| s.spec_bytes()) == push_nonempty(
            old(r)@.map_values(|s: &str| s.spec_bytes()),
            p.spec_bytes(),
        ),
{
    proof {
        lemma_encode_empty(p@);
    }
    if !p.is_empty() {
        r.push(p);
    }
    assert(r@.map_values(|s: &str| s.spec_bytes()) =~= push_nonempty(
        old(r)@.map_values(|s: &str| s.spec_bytes()),
        p.spec_bytes(),
    ));
}

/// The default-background candidates of `data` (see
/// `background_candidates`); the first of them that exists on disk is used.
pub fn background_images(data: &BmsData) -> (r: Vec<&str>)
    ensures
        r@.map_values(|s: &str| s.spec_bytes()) == background_candidates(data@),
{
    let mut r: Vec<&str> = Vec::new();
    assert(r@.map_values(|s: &str| s.spec_bytes()) =~= Seq::<Seq<u8>>::empty());
    push_text(&mut r, data.backbmp.as_str());
    push_text(&mut r, data.stagefile.as_str());
    push_text(&mut r, data.banner.as_str());
    r
}

} // verus!
