//! Grapheme clusters: how a string is cut into them, and how two of them
//! are compared.
use unicode_segmentation::UnicodeSegmentation;
use vstd::prelude::*;
use vstd::string::*;
use vstd::utf8::*;

verus! {

/// One user-perceived character, as the code points it is made of.
pub type Grapheme = Seq<char>;

/// The pattern grapheme that stands for any run of graphemes, the empty one
/// included.
pub open spec fn star() -> Grapheme {
    seq!['*']
}

/// The pattern grapheme that stands for any single grapheme.
pub open spec fn any_one() -> Grapheme {
    seq!['?']
}

/// The grapheme clusters of a string, in order, as the Unicode rules for
/// text segmentation cut them: the extended clusters if `is_extended`, the
/// legacy ones if not.
///
/// The rules fill tables; they are not written out here. What is known of
/// the clusters is what [`is_segmentation`] says, and that the same string
/// is always cut in the same way.
pub uninterp spec fn grapheme_clusters(s: Seq<char>, is_extended: bool) -> Seq<Grapheme>;

/// Whether `clusters` are consecutive pieces of `s` that leave nothing out:
/// none of them is empty, and put together they are `s`.
pub open spec fn is_segmentation(clusters: Seq<Grapheme>, s: Seq<char>) -> bool {
    &&& clusters.flatten() == s
    &&& forall|i: int| 0 <= i < clusters.len() ==> (#[trigger] clusters[i]).len() > 0
}

/// Calls `unicode_segmentation::UnicodeSegmentation::graphemes` on `s` and
/// collects the slices that its iterator yields.
///
/// Taken on trust: the slices are the clusters that the rules name; each
/// starts where the one before ended, the first at the start of `s` and the
/// last ending at its end; and each holds at least one character.
#[verifier::external_body]
fn graphemes<'a>(s: &'a str, is_extended: bool) -> (clusters: Vec<&'a str>)
    ensures
        clusters.deep_view() == grapheme_clusters(s@, is_extended),
        is_segmentation(clusters.deep_view(), s@),
{
    UnicodeSegmentation::graphemes(s, is_extended).collect()
}

/// A segmentation has at most as many clusters as the string has
/// characters.
pub proof fn lemma_segmentation_count(clusters: Seq<Grapheme>, s: Seq<char>)
    requires
        is_segmentation(clusters, s),
    ensures
        clusters.len() <= s.len(),
    decreases clusters.len(),
{
    if clusters.len() > 0 {
        let rest = clusters.drop_last();
        assert(clusters =~= rest.push(clusters.last()));
        rest.lemma_flatten_push(clusters.last());
        assert(is_segmentation(rest, rest.flatten()));
        lemma_segmentation_count(rest, rest.flatten());
    }
}

/// The empty string has no clusters, and a string of one character is one
/// cluster.
pub proof fn lemma_segmentation_of_short(clusters: Seq<Grapheme>, s: Seq<char>)
    requires
        is_segmentation(clusters, s),
        s.len() <= 1,
    ensures
        s.len() == 0 ==> clusters.len() == 0,
        s.len() == 1 ==> clusters == seq![s],
{
    lemma_segmentation_count(clusters, s);
    if clusters.len() == 1 {
        clusters.lemma_flatten_singleton();
        assert(clusters =~= seq![s]);
    }
}

/// Every character of every cluster of a segmentation is a character of the
/// string.
pub proof fn lemma_segmentation_holds_no_other_chars(
    clusters: Seq<Grapheme>,
    s: Seq<char>,
    i: int,
    j: int,
)
    requires
        is_segmentation(clusters, s),
        0 <= i < clusters.len(),
        0 <= j < clusters[i].len(),
    ensures
        s.contains(clusters[i][j]),
    decreases clusters.len(),
{
    let rest = clusters.drop_last();
    assert(clusters =~= rest.push(clusters.last()));
    rest.lemma_flatten_push(clusters.last());
    if i == clusters.len() - 1 {
        assert(s[rest.flatten().len() + j] == clusters[i][j]);
    } else {
        assert(is_segmentation(rest, rest.flatten()));
        lemma_segmentation_holds_no_other_chars(rest, rest.flatten(), i, j);
        let at = rest.flatten().index_of(rest[i][j]);
        assert(s[at] == clusters[i][j]);
    }
}

/// Cuts a string into its extended grapheme clusters.
///
/// The clusters come in order, none is empty, and put together they are the
/// string again; so the empty string has none.
pub fn split_graphemes<'a>(s: &'a str) -> (clusters: Vec<&'a str>)
    ensures
        clusters.deep_view() == grapheme_clusters(s@, true),
        is_segmentation(clusters.deep_view(), s@),
        clusters.len() <= s@.len(),
        s@.len() == 0 ==> clusters.len() == 0,
        s@.len() == 1 ==> clusters.deep_view() == seq![s@],
{
    let clusters = graphemes(s, true);
    proof {
        lemma_segmentation_count(clusters.deep_view(), s@);
        if s@.len() <= 1 {
            lemma_segmentation_of_short(clusters.deep_view(), s@);
        }
    }
    clusters
}

/// Whether two string slices hold the same characters.
///
/// The slices are compared byte by byte; that this decides equality of the
/// characters rests on UTF-8 encoding being invertible.
pub fn same_grapheme(a: &str, b: &str) -> (same: bool)
    ensures
        same == (a@ == b@),
{
    let x = a.as_bytes();
    let y = b.as_bytes();
    proof {
        encode_utf8_decode_utf8(a@);
        encode_utf8_decode_utf8(b@);
    }
    if x.len() != y.len() {
        return false;
    }
    let mut i: usize = 0;
    while i < x.len()
        invariant
            x@.len() == y@.len(),
            i <= x@.len(),
            forall|k: int| 0 <= k < i ==> x@[k] == y@[k],
            x@ == encode_utf8(a@),
            y@ == encode_utf8(b@),
            decode_utf8(encode_utf8(a@)) == a@,
            decode_utf8(encode_utf8(b@)) == b@,
        decreases x@.len() - i,
    {
        if x[i] != y[i] {
            return false;
        }
        i += 1;
    }
    assert(x@ =~= y@);
    true
}

/// Whether a grapheme is the wildcard `*`.
pub fn is_star(g: &str) -> (yes: bool)
    ensures
        yes == (g@ == star()),
{
    proof {
        reveal_strlit("*");
        assert("*"@ =~= seq!['*']);
    }
    same_grapheme(g, "*")
}

/// Whether a grapheme is the wildcard `?`.
pub fn is_any_one(g: &str) -> (yes: bool)
    ensures
        yes == (g@ == any_one()),
{
    proof {
        reveal_strlit("?");
        assert("?"@ =~= seq!['?']);
    }
    same_grapheme(g, "?")
}

} // verus!
