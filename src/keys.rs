use vstd::prelude::*;

verus! {

/// The namespace of the series entries; alone it is the "all series" key.
pub open spec fn series_prefix() -> Seq<char> {
    seq!['c', 'c', ':', 's', 'e', 'r', 'i', 'e', 's', ':']
}

pub open spec fn label_values_prefix() -> Seq<char> {
    seq!['c', 'c', ':', 'l', 'a', 'b', 'e', 'l', '_', 'v', 'a', 'l', 'u', 'e', 's', ':']
}

pub open spec fn labels_key() -> Seq<char> {
    seq!['c', 'c', ':', 'l', 'a', 'b', 'e', 'l', 's']
}

/// The cache key of a series selector with the given canonical key.
pub open spec fn series_key(canonical: Seq<char>) -> Seq<char> {
    series_prefix() + seq!['-'] + canonical
}

/// The key under which the label names are cached.
pub fn label_cache_key() -> (r: &'static str)
    ensures
        r@ == labels_key(),
{
    proof {
        reveal_strlit("cc:labels");
    }
    let r = "cc:labels";
    assert(r@ =~= labels_key());
    r
}

/// The key under which the values of one label are cached.
pub fn label_values_cache_key(k: &str) -> (r: String)
    ensures
        r@ == label_values_prefix() + k@,
{
    proof {
        reveal_strlit("cc:label_values:");
    }
    let mut r = String::from_str("cc:label_values:");
    assert(r@ =~= label_values_prefix());
    r.append(k);
    r
}

/// The key of the unfiltered "all series" entry.
pub fn series_cache_key() -> (r: String)
    ensures
        r@ == series_prefix(),
{
    proof {
        reveal_strlit("cc:series:");
    }
    let r = String::from_str("cc:series:");
    assert(r@ =~= series_prefix());
    r
}

/// The key of the series entry for a canonical selector key.
pub fn series_cache_key_with_matches(matches: &str) -> (r: String)
    ensures
        r@ == series_key(matches@),
{
    let mut r = series_cache_key();
    proof {
        reveal_strlit("-");
    }
    r.append("-");
    r.append(matches);
    r
}

} // verus!
