//! Small pure helpers behind the command handlers: display truncation,
//! package/recipe difference marking, list merging, and yes/no answers.

use vstd::prelude::*;

verus! {

use vstd::utf8::{encode_utf8, decode_utf8, is_char_boundary, encode_utf8_valid_utf8};
use vstd::string::{StringExecFns, StringSliceAdditionalSpecFns};
use crate::text::{ascii_chars_of, all_ascii, str_eq};

broadcast use vstd::seq::group_seq_axioms;

/// One name with flags for whether a recipe and a built package exist.
pub struct Diff {
    pub name: String,
    pub pkg: bool,
    pub pkgb: bool,
}

impl Diff {
    /// A fresh entry with both flags down.
    pub fn new(name: String) -> (r: Diff)
        ensures
            r.name@ == name@,
            !r.pkg,
            !r.pkgb,
    {
        Diff { name, pkg: false, pkgb: false }
    }
}

/// The three dependency lists of a package.
pub struct Dependencies {
    pub runtime: Vec<String>,
    pub release: Vec<String>,
    pub cross: Vec<String>,
}

impl Dependencies {
    /// A fresh set of dependency lists.
    pub fn new(runtime: Vec<String>, release: Vec<String>, cross: Vec<String>) -> (r:
        Dependencies)
        ensures
            r.runtime == runtime,
            r.release == release,
            r.cross == cross,
    {
        Dependencies { runtime, release, cross }
    }
}

/// True when the list holds the string.
pub fn list_contains(v: &Vec<String>, s: &str) -> (r: bool)
    ensures
        r == v.deep_view().contains(s@),
{
    let mut i: usize = 0;
    while i < v.len()
        invariant
            i <= v@.len(),
            forall|t: int| 0 <= t < i ==> v.deep_view()[t] != s@,
        decreases v@.len() - i,
    {
        if str_eq(v[i].as_str(), s) {
            proof {
                assert(v.deep_view()[i as int] == s@);
            }
            return true;
        }
        i = i + 1;
    }
    proof {
        if v.deep_view().contains(s@) {
            let t = choose|t: int| 0 <= t < v.deep_view().len() && v.deep_view()[t] == s@;
            assert(v.deep_view()[t] != s@);
        }
    }
    false
}

/// Marks each name with whether the recipes and the built packages hold
/// it.
pub fn mark_diff(combined: &Vec<String>, pkgbs: &Vec<String>, pkgs: &Vec<String>) -> (r: Vec<
    Diff,
>)
    ensures
        r@.len() == combined@.len(),
        forall|i: int|
            0 <= i < combined@.len() ==> (#[trigger] r@[i]).name@ == combined.deep_view()[i]
                && r@[i].pkgb == pkgbs.deep_view().contains(combined.deep_view()[i])
                && r@[i].pkg == pkgs.deep_view().contains(combined.deep_view()[i]),
{
    let mut out: Vec<Diff> = Vec::new();
    let mut i: usize = 0;
    while i < combined.len()
        invariant
            i <= combined@.len(),
            out@.len() == i,
            forall|t: int|
                0 <= t < i ==> (#[trigger] out@[t]).name@ == combined.deep_view()[t]
                    && out@[t].pkgb == pkgbs.deep_view().contains(combined.deep_view()[t])
                    && out@[t].pkg == pkgs.deep_view().contains(combined.deep_view()[t]),
        decreases combined@.len() - i,
    {
        let name = combined[i].clone();
        let pkgb = list_contains(pkgbs, name.as_str());
        let pkg = list_contains(pkgs, name.as_str());
        out.push(Diff { name, pkg, pkgb });
        i = i + 1;
    }
    out
}

/// Lexicographic order on byte sequences.
pub open spec fn bytes_le(a: Seq<u8>, b: Seq<u8>) -> bool
    decreases a.len(),
{
    if a.len() == 0 {
        true
    } else if b.len() == 0 {
        false
    } else if a[0] < b[0] {
        true
    } else if a[0] > b[0] {
        false
    } else {
        bytes_le(a.drop_first(), b.drop_first())
    }
}

/// The order strings sort in: lexicographic on their UTF-8 bytes.
pub open spec fn str_le(a: Seq<char>, b: Seq<char>) -> bool {
    bytes_le(encode_utf8(a), encode_utf8(b))
}

/// Relies on `<[String]>::sort`: it reorders the elements in place into
/// lexicographic order, which for strings is the byte order of their
/// UTF-8 forms.
#[verifier::external_body]
fn sort_strings(v: &mut Vec<String>)
    ensures
        final(v)@.len() == old(v)@.len(),
        final(v)@.to_multiset() == old(v)@.to_multiset(),
        forall|i: int, j: int|
            0 <= i < j < final(v)@.len() ==> str_le(
                (#[trigger] final(v)@[i])@,
                (#[trigger] final(v)@[j])@,
            ),
{
    v.sort();
}

/// The names, with every name of `extra` that is not yet present appended
/// in order.
pub open spec fn add_missing(acc: Seq<Seq<char>>, extra: Seq<Seq<char>>) -> Seq<Seq<char>>
    decreases extra.len(),
{
    if extra.len() == 0 {
        acc
    } else if acc.contains(extra[0]) {
        add_missing(acc, extra.drop_first())
    } else {
        add_missing(acc.push(extra[0]), extra.drop_first())
    }
}

/// Appends every name of `extra` that the list does not already hold.
pub fn append_missing(combined: &mut Vec<String>, extra: &Vec<String>)
    ensures
        final(combined).deep_view() == add_missing(old(combined).deep_view(), extra.deep_view()),
        final(combined)@.len() >= old(combined)@.len(),
        final(combined)@.take(old(combined)@.len() as int) == old(combined)@,
{
    let mut i: usize = 0;
    proof {
        assert(extra.deep_view().skip(0) =~= extra.deep_view());
    }
    while i < extra.len()
        invariant
            i <= extra@.len(),
            extra.deep_view().len() == extra@.len(),
            combined@.len() >= old(combined)@.len(),
            combined@.take(old(combined)@.len() as int) == old(combined)@,
            add_missing(old(combined).deep_view(), extra.deep_view()) == add_missing(
                combined.deep_view(),
                extra.deep_view().skip(i as int),
            ),
        decreases extra@.len() - i,
    {
        let ghost pre = combined.deep_view();
        let ghost rem = extra.deep_view().skip(i as int);
        proof {
            assert(rem.len() > 0);
            assert(rem[0] == extra.deep_view()[i as int]);
            assert(rem.drop_first() =~= extra.deep_view().skip(i + 1));
        }
        if !list_contains(combined, extra[i].as_str()) {
            let ghost before = combined@;
            combined.push(extra[i].clone());
            proof {
                assert(combined.deep_view() =~= pre.push(extra.deep_view()[i as int]));
                assert(combined@.take(old(combined)@.len() as int) =~= before.take(
                    old(combined)@.len() as int,
                ));
            }
        }
        i = i + 1;
    }
    proof {
        assert(extra.deep_view().skip(extra@.len() as int).len() == 0);
    }
}

/// The recipe names sorted, with the built-package names that are missing
/// appended in their given order: the combined listing the difference
/// views work from.
pub fn combined_names(pkgbs: Vec<String>, pkgs: &Vec<String>) -> (r: Vec<String>)
    ensures
        r@.len() >= pkgbs@.len(),
        r@.take(pkgbs@.len() as int).to_multiset() == pkgbs@.to_multiset(),
        forall|i: int, j: int|
            0 <= i < j < pkgbs@.len() ==> str_le((#[trigger] r@[i])@, (#[trigger] r@[j])@),
        r.deep_view() == add_missing(
            r.deep_view().take(pkgbs@.len() as int),
            pkgs.deep_view(),
        ),
{
    let mut base = pkgbs;
    sort_strings(&mut base);
    let ghost sorted = base.deep_view();
    let ghost sorted_strings_view = base@;
    let n = base.len();
    append_missing(&mut base, pkgs);
    proof {
        lemma_add_missing_prefix(sorted, pkgs.deep_view());
        assert(base.deep_view().take(n as int) =~= sorted);
        assert(base@.take(n as int) =~= sorted_strings_view);
        assert forall|i: int, j: int| 0 <= i < j < n implies str_le(
            (#[trigger] base@[i])@,
            (#[trigger] base@[j])@,
        ) by {
            assert(base@[i] == sorted_strings_view[i]);
            assert(base@[j] == sorted_strings_view[j]);
        }
    }
    base
}

/// A name kept through the merge: the first entries never change.
proof fn lemma_add_missing_prefix(acc: Seq<Seq<char>>, extra: Seq<Seq<char>>)
    ensures
        add_missing(acc, extra).len() >= acc.len(),
        add_missing(acc, extra).take(acc.len() as int) == acc,
    decreases extra.len(),
{
    if extra.len() > 0 {
        if acc.contains(extra[0]) {
            lemma_add_missing_prefix(acc, extra.drop_first());
        } else {
            lemma_add_missing_prefix(acc.push(extra[0]), extra.drop_first());
            assert(add_missing(acc.push(extra[0]), extra.drop_first()).take(acc.len() as int)
                =~= acc) by {
                assert(add_missing(acc.push(extra[0]), extra.drop_first()).take(
                    acc.len() as int + 1,
                ) == acc.push(extra[0]));
                assert(acc.push(extra[0]).take(acc.len() as int) =~= acc);
            }
        }
    }
}

/// Truncates a listing entry to at most `max_chars` bytes, ending it
/// with an ellipsis when it was cut. The operation is byte-based: when
/// the entry is cut, both cut indices must fall on character boundaries
/// of its UTF-8 form, as the underlying byte surgery demands.
pub fn truncate_to(input: String, max_chars: usize) -> (r: String)
    requires
        encode_utf8(input@).len() > max_chars ==> max_chars >= 3 && is_char_boundary(
            encode_utf8(input@),
            max_chars as int,
        ) && is_char_boundary(encode_utf8(input@), max_chars - 3),
    ensures
        encode_utf8(input@).len() > max_chars ==> r@ == decode_utf8(
            encode_utf8(input@).take(max_chars - 3),
        ) + "..."@,
        encode_utf8(input@).len() <= max_chars ==> r@ == input@,
{
    let bs: &[u8] = input.as_str().as_bytes();
    if bs.len() <= max_chars {
        return input;
    }
    let ghost eb = encode_utf8(input@);
    proof {
        encode_utf8_valid_utf8(input@);
        vstd::utf8::valid_utf8_split(eb, max_chars - 3);
    }
    let mut out: Vec<u8> = Vec::new();
    let mut i: usize = 0;
    while i < max_chars - 3
        invariant
            max_chars >= 3,
            max_chars < bs@.len(),
            bs@ == encode_utf8(input@),
            i <= max_chars - 3,
            out@ =~= bs@.take(i as int),
        decreases max_chars - 3 - i,
    {
        out.push(bs[i]);
        proof {
            assert(bs@.take(i + 1) =~= bs@.take(i as int).push(bs@[i as int]));
        }
        i = i + 1;
    }
    let ghost prefix = eb.take(max_chars - 3);
    let ghost cut = decode_utf8(prefix);
    out.push(0x2E);
    out.push(0x2E);
    out.push(0x2E);
    proof {
        reveal_strlit("...");
        assert(prefix =~= eb.subrange(0, max_chars - 3));
        assert(vstd::utf8::valid_utf8(prefix));
        vstd::utf8::decode_utf8_encode_utf8(prefix);
        assert("..."@.len() == 3 && "..."@[0] == '.' && "..."@[1] == '.' && "..."@[2] == '.');
        crate::text::lemma_ascii_decode(seq![0x2Eu8, 0x2Eu8, 0x2Eu8]);
        assert(ascii_chars_of(seq![0x2Eu8, 0x2Eu8, 0x2Eu8]) =~= "..."@) by {
            assert((0x2Eu8 as char) == '.');
        }
        assert(encode_utf8("..."@) =~= seq![0x2Eu8, 0x2Eu8, 0x2Eu8]);
        crate::text::lemma_encode_utf8_concat(cut, "..."@);
        assert(out@ =~= prefix + seq![0x2Eu8, 0x2Eu8, 0x2Eu8]);
        assert(out@ =~= encode_utf8(cut + "..."@));
        encode_utf8_valid_utf8(cut + "..."@);
        vstd::utf8::encode_utf8_decode_utf8(cut + "..."@);
    }
    match crate::text::string_from_utf8(out) {
        Some(t) => t,
        None => String::new(),
    }
}

/// The width of an entry: its UTF-8 byte count as the terminal layout
/// counts it.
pub open spec fn byte_width(s: Seq<char>) -> usize {
    encode_utf8(s).len() as usize
}

/// The byte length of the longest entry, for column layout.
pub fn longest_len(v: &Vec<String>) -> (r: usize)
    ensures
        forall|i: int| 0 <= i < v@.len() ==> byte_width((#[trigger] v@[i])@) <= r,
        v@.len() == 0 ==> r == 0,
        v@.len() > 0 ==> exists|i: int| 0 <= i < v@.len() && byte_width((#[trigger] v@[i])@) == r,
{
    let mut best: usize = 0;
    let mut i: usize = 0;
    while i < v.len()
        invariant
            i <= v@.len(),
            forall|t: int| 0 <= t < i ==> byte_width((#[trigger] v@[t])@) <= best,
            i == 0 ==> best == 0,
            i > 0 ==> exists|t: int| 0 <= t < i && byte_width((#[trigger] v@[t])@) == best,
        decreases v@.len() - i,
    {
        let s = v[i].as_str();
        let l = s.len();
        proof {
            assert(s@ == v@[i as int]@);
            assert(s.spec_bytes() == encode_utf8(s@));
            assert(l == byte_width(v@[i as int]@));
        }
        if l > best || i == 0 {
            best = l;
        }
        i = i + 1;
    }
    best
}

/// What folding a string to lower case yields. Relied on through
/// [`lowercase`]; the result depends on the characters alone.
pub uninterp spec fn lower_of(s: Seq<char>) -> Seq<char>;

/// Relies on `str::to_lowercase`: the result is a pure function of the
/// characters; an empty string stays empty.
#[verifier::external_body]
fn lowercase(s: &str) -> (r: String)
    ensures
        r@ == lower_of(s@),
        s@.len() == 0 ==> r@.len() == 0,
{
    s.to_lowercase()
}

/// What a folded yes/no answer means: nothing chooses the default, the
/// yes and no words choose, and anything else asks again.
pub open spec fn choice_of(folded: Seq<char>, default: bool) -> Option<bool> {
    if folded.len() == 0 {
        Some(default)
    } else if folded == "no"@ || folded == "n"@ {
        Some(false)
    } else if folded == "yes"@ || folded == "y"@ {
        Some(true)
    } else {
        None
    }
}

/// Decides a yes/no answer from its lower-cased text.
pub fn interpret_choice(folded: &str, default: bool) -> (r: Option<bool>)
    ensures
        r == choice_of(folded@, default),
{
    if folded.is_empty() {
        Some(default)
    } else if str_eq(folded, "no") || str_eq(folded, "n") {
        Some(false)
    } else if str_eq(folded, "yes") || str_eq(folded, "y") {
        Some(true)
    } else {
        None
    }
}

/// Decides a raw yes/no answer: the empty answer takes the default, and
/// case does not matter.
pub fn read_choice(raw: &str, default: bool) -> (r: Option<bool>)
    ensures
        raw@.len() == 0 ==> r == Some(default),
        raw@.len() > 0 ==> r == choice_of(lower_of(raw@), default),
{
    if raw.is_empty() {
        return Some(default);
    }
    let folded = lowercase(raw);
    interpret_choice(folded.as_str(), default)
}

} // verus!
