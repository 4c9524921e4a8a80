//! Which temperature source a graphics adapter's vendor string points to,
//! and which sensor readings count.

use vstd::prelude::*;
use crate::text::chars_of;

verus! {

broadcast use vstd::string::group_string_axioms;

/// `c` with ASCII capitals made small, as `str::to_ascii_lowercase` does.
pub open spec fn ascii_lower(c: char) -> char {
    if 'A' <= c <= 'Z' {
        ((c as u32) + 32) as char
    } else {
        c
    }
}

/// `needle` occurs in `hay` starting at `at`.
pub open spec fn occurs_at(hay: Seq<char>, needle: Seq<char>, at: int) -> bool {
    0 <= at && at + needle.len() <= hay.len() && hay.subrange(at, at + needle.len()) == needle
}

/// `s` with its ASCII capitals made small.
pub open spec fn lowered(s: Seq<char>) -> Seq<char> {
    s.map_values(|c: char| ascii_lower(c))
}

/// `needle` occurs in `hay`, capitals in `hay` read as small letters.
pub open spec fn mentions(hay: Seq<char>, needle: Seq<char>) -> bool {
    exists|at: int| #[trigger] occurs_at(lowered(hay), needle, at)
}

pub(crate) fn lower_chars(s: &str) -> (v: Vec<char>)
    ensures
        v@ == lowered(s@),
{
    let cs = chars_of(s);
    let mut v: Vec<char> = Vec::new();
    let mut i: usize = 0;
    while i < cs.len()
        invariant
            0 <= i <= cs.len(),
            cs@ == s@,
            v@ == s@.take(i as int).map_values(|c: char| ascii_lower(c)),
        decreases cs.len() - i,
    {
        let c = cs[i];
        let l = if 'A' <= c && c <= 'Z' { ((c as u32) + 32) as u8 as char } else { c };
        assert(l == ascii_lower(c)) by {
            if 'A' <= c && c <= 'Z' {
                assert(((c as u32) + 32) < 128);
            }
        }
        v.push(l);
        assert(s@.take(i + 1).map_values(|c: char| ascii_lower(c)) =~= s@.take(i as int).map_values(|c: char| ascii_lower(c)).push(l));
        i += 1;
    }
    assert(s@.take(i as int) =~= s@);
    v
}

/// Whether `vendor`, read without regard to ASCII case, contains `needle`
/// (which is expected in small letters).
pub fn vendor_mentions(vendor: &str, needle: &str) -> (r: bool)
    ensures
        r == mentions(vendor@, needle@),
{
    let hay = lower_chars(vendor);
    let pat = chars_of(needle);
    let ghost low = lowered(vendor@);
    if pat.len() > hay.len() {
        assert forall|at: int| !occurs_at(low, needle@, at) by {}
        return false;
    }
    let last = hay.len() - pat.len();
    let mut at: usize = 0;
    while at <= last
        invariant
            hay@ == low,
            low == lowered(vendor@),
            pat@ == needle@,
            last == hay@.len() - pat@.len(),
            0 <= at <= last + 1,
            forall|a: int| 0 <= a < at ==> !occurs_at(low, needle@, a),
        decreases last + 1 - at,
    {
        let mut j: usize = 0;
        while j < pat.len() && hay[at + j] == pat[j]
            invariant
                0 <= j <= pat.len(),
                hay@ == low,
                pat@ == needle@,
                pat.len() <= hay.len(),
                at <= last,
                last == hay@.len() - pat@.len(),
                forall|q: int| 0 <= q < j ==> hay@[at + q] == pat@[q],
            decreases pat.len() - j,
        {
            j += 1;
        }
        if j == pat.len() {
            assert(hay@.subrange(at as int, at + pat@.len()) =~= pat@);
            assert(occurs_at(low, needle@, at as int));
            assert(occurs_at(lowered(vendor@), needle@, at as int));
            return true;
        }
        assert(!occurs_at(low, needle@, at as int)) by {
            if hay@.subrange(at as int, at + pat@.len()) == pat@ {
                assert(hay@.subrange(at as int, at + pat@.len())[j as int] == hay@[at + j]);
            }
        }
        at += 1;
    }
    assert forall|a: int| !occurs_at(low, needle@, a) by {
        if 0 <= a && a + needle@.len() <= low.len() {
            assert(a < at);
        }
    }
    false
}

/// Which readers to try for an adapter whose vendor is `vendor`: AMD's
/// when it mentions "amd" or "ati", NVIDIA's when it mentions "nvidia"
/// (ASCII case ignored).
pub fn gpu_temperature_sources(vendor: &str) -> (r: (bool, bool))
    ensures
        r == (mentions(vendor@, "amd"@) || mentions(vendor@, "ati"@), mentions(vendor@, "nvidia"@)),
{
    let amd = vendor_mentions(vendor, "amd") || vendor_mentions(vendor, "ati");
    let nvidia = vendor_mentions(vendor, "nvidia");
    (amd, nvidia)
}

/// Whether an adapter's vendor id names AMD: it mentions PCI vendor
/// number "1002" or "amd" (ASCII case ignored).
pub fn is_amd_vendor_id(vendor_id: &str) -> (r: bool)
    ensures
        r == (mentions(vendor_id@, "1002"@) || mentions(vendor_id@, "amd"@)),
{
    vendor_mentions(vendor_id, "1002") || vendor_mentions(vendor_id, "amd")
}

/// The readings of `rows` that are present, in order.
pub open spec fn present(rows: Seq<Option<i64>>) -> Seq<i64>
    decreases rows.len(),
{
    if rows.len() == 0 {
        seq![]
    } else {
        match rows.last() {
            Some(v) => present(rows.drop_last()).push(v),
            None => present(rows.drop_last()),
        }
    }
}

/// The readings that sensors reported, in order; sensors without a
/// reading are skipped.  The temperature is the mean of these, and where
/// there are none the next kind of sensor is asked.
pub fn present_readings(rows: &Vec<Option<i64>>) -> (r: Vec<i64>)
    ensures
        r@ == present(rows@),
{
    let mut r: Vec<i64> = Vec::new();
    let mut i: usize = 0;
    while i < rows.len()
        invariant
            0 <= i <= rows@.len(),
            r@ == present(rows@.take(i as int)),
        decreases rows@.len() - i,
    {
        assert(rows@.take(i + 1).drop_last() =~= rows@.take(i as int));
        assert(rows@.take(i + 1).last() == rows@[i as int]);
        match rows[i] {
            Some(v) => r.push(v),
            None => {},
        }
        i += 1;
    }
    assert(rows@.take(i as int) =~= rows@);
    r
}

} // verus!
