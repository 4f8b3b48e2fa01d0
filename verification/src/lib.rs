//! A bidirectional tag / entry index for filesystem paths.
//!
//! Named, colored tags are attached to entries (tracked paths); the registry
//! keeps the map from each tag to the entries it labels and the map from
//! each entry id to its record, garbage-collecting tags with no entries and
//! entries with no tags, and persisting the whole state as a binary blob.

pub mod opt;
pub mod registry;
pub mod tag;

use vstd::prelude::*;

verus! {

/// Errors of the tag layer over the attribute store.
#[derive(Clone, Debug)]
pub enum Error {
    /// The tag is already present on the file.
    TagExists,
    /// No such tag on the file.
    TagNotFound,
    /// The file itself was not found.
    FileNotFound,
    /// Any other failure, with its message.
    Other(String),
    /// A string could not be used as an attribute key or value.
    InvalidString(String),
    /// An attribute value was not valid UTF-8.
    Utf8ConversionFailed(String),
    /// The attributes changed while their size was being read.
    AttrsChanged,
}

/// The kind of a failed filesystem operation, as the caller saw it.
#[derive(Clone, Copy, Debug, PartialEq, Eq, Structural)]
pub enum IoKind {
    /// The file was not found.
    NotFound,
    /// The target already exists.
    AlreadyExists,
    /// Any other kind.
    Other,
}

impl Error {
    /// Maps a failed filesystem operation onto the tag layer's errors: a
    /// missing file, an existing tag, the platform's "no such attribute"
    /// code, or the raw message.
    pub fn from_io(kind: IoKind, raw_os: Option<i32>, msg: String) -> (r: Error)
        ensures
            kind == IoKind::NotFound ==> r is FileNotFound,
            kind == IoKind::AlreadyExists ==> r is TagExists,
            kind == IoKind::Other && raw_os == Some(61i32) ==> r is TagNotFound,
            kind == IoKind::Other && raw_os != Some(61i32) ==> (r matches Error::Other(m) && m@
                == msg@),
    {
        match kind {
            IoKind::NotFound => Error::FileNotFound,
            IoKind::AlreadyExists => Error::TagExists,
            IoKind::Other => {
                match raw_os {
                    Some(code) => {
                        if code == 61 {
                            Error::TagNotFound
                        } else {
                            Error::Other(msg)
                        }
                    },
                    None => Error::Other(msg),
                }
            },
        }
    }
}

/// Whether an attribute key lies in the namespace this tool reserves.
pub open spec fn ns_key(k: Seq<char>) -> bool {
    k.len() >= "user.rutag"@.len() && k.subrange(0, "user.rutag"@.len() as int) == "user.rutag"@
}

/// The tag values among the attributes: the values of the keys in the
/// reserved namespace, in attribute order.
pub open spec fn spec_tag_values(attrs: Seq<(Seq<char>, Seq<char>)>) -> Seq<Seq<char>>
    decreases attrs.len(),
{
    if attrs.len() == 0 {
        Seq::empty()
    } else {
        spec_tag_values(attrs.drop_last()) + (if ns_key(attrs.last().0) {
            seq![attrs.last().1]
        } else {
            Seq::empty()
        })
    }
}

/// The keys in the reserved namespace, in attribute order.
pub open spec fn spec_ns_keys(attrs: Seq<(Seq<char>, Seq<char>)>) -> Seq<Seq<char>>
    decreases attrs.len(),
{
    if attrs.len() == 0 {
        Seq::empty()
    } else {
        spec_ns_keys(attrs.drop_last()) + (if ns_key(attrs.last().0) {
            seq![attrs.last().0]
        } else {
            Seq::empty()
        })
    }
}

/// The views of a list of strings.
pub open spec fn strs_view(v: Seq<String>) -> Seq<Seq<char>> {
    v.map_values(|s: String| s@)
}

/// The view of an attribute list.
pub open spec fn attrs_view(attrs: Seq<(String, String)>) -> Seq<(Seq<char>, Seq<char>)> {
    attrs.map_values(|p: (String, String)| (p.0@, p.1@))
}

/// Decides `ns_key` executably.
#[verifier::loop_isolation(false)]
fn key_has_ns(key: &str) -> (r: bool)
    ensures
        r == ns_key(key@),
{
    let n = "user.rutag";
    proof {
        reveal_strlit("user.rutag");
    }
    let nl = n.unicode_len();
    if key.unicode_len() < nl {
        return false;
    }
    let mut i: usize = 0;
    while i < nl
        invariant
            0 <= i <= nl,
            nl == n@.len(),
            key@.len() >= nl,
            forall|j: int| 0 <= j < i ==> key@[j] == n@[j],
        decreases nl - i,
    {
        if key.get_char(i) != n.get_char(i) {
            proof {
                assert(key@.subrange(0, n@.len() as int)[i as int] == key@[i as int]);
            }
            return false;
        }
        i += 1;
    }
    proof {
        assert(key@.subrange(0, n@.len() as int) =~= n@);
    }
    true
}

/// View-level string equality, decided executably.
fn text_eq(a: &str, b: &str) -> (r: bool)
    ensures
        r == (a@ == b@),
{
    let sa = a.to_owned();
    let sb = b.to_owned();
    sa == sb
}

/// The tags on a file, given its listed attributes: the values stored
/// under keys of the reserved namespace, in order.
#[verifier::loop_isolation(false)]
pub fn list_tags(attrs: &Vec<(String, String)>) -> (r: Vec<String>)
    ensures
        r@.map_values(|s: String| s@) == spec_tag_values(attrs_view(attrs@)),
{
    let ghost av = attrs_view(attrs@);
    let mut out: Vec<String> = Vec::new();
    let mut k: usize = 0;
    while k < attrs.len()
        invariant
            0 <= k <= attrs@.len(),
            av == attrs_view(attrs@),
            out@.map_values(|s: String| s@) == spec_tag_values(av.take(k as int)),
        decreases attrs@.len() - k,
    {
        proof {
            assert(av.take((k + 1) as int).drop_last() =~= av.take(k as int));
            assert(av.take((k + 1) as int).last() == av[k as int]);
        }
        if key_has_ns(attrs[k].0.as_str()) {
            out.push(attrs[k].1.clone());
        }
        proof {
            assert(out@.map_values(|s: String| s@) =~= spec_tag_values(av.take((k + 1) as int)));
        }
        k += 1;
    }
    proof {
        assert(av.take(attrs@.len() as int) =~= av);
    }
    out
}

/// Whether some element of the sequence has this text.
pub open spec fn contains_text(found: Seq<String>, x: Seq<char>) -> bool {
    exists|j: int| 0 <= j < found.len() && (#[trigger] found[j])@ == x
}

/// Whether some element of `tags` has this text.
pub fn tags_contain(tags: &Vec<String>, tag: &str) -> (r: bool)
    ensures
        r == contains_text(tags@, tag@),
{
    let mut k: usize = 0;
    while k < tags.len()
        invariant
            0 <= k <= tags@.len(),
            forall|j: int| 0 <= j < k ==> (#[trigger] tags@[j])@ != tag@,
        decreases tags@.len() - k,
    {
        if text_eq(tags[k].as_str(), tag) {
            return true;
        }
        k += 1;
    }
    false
}

/// Whether every text of `query` occurs among `found`.
pub open spec fn all_included(query: Seq<String>, found: Seq<String>) -> bool
    decreases query.len(),
{
    if query.len() == 0 {
        true
    } else {
        contains_text(found, query.last()@) && all_included(query.drop_last(), found)
    }
}

/// Each queried text of an included query occurs among the found ones.
pub proof fn lemma_all_included_index(q: Seq<String>, f: Seq<String>, i: int)
    requires
        all_included(q, f),
        0 <= i < q.len(),
    ensures
        contains_text(f, q[i]@),
    decreases q.len(),
{
    if i == q.len() - 1 {
    } else {
        assert(q.drop_last()[i] == q[i]);
        lemma_all_included_index(q.drop_last(), f, i);
    }
}

/// Whether every queried tag occurs among the found ones: the test a
/// search with several tags applies to each file.
pub fn tags_include_all(query: &Vec<String>, found: &Vec<String>) -> (r: bool)
    ensures
        r == all_included(query@, found@),
{
    let mut k: usize = 0;
    while k < query.len()
        invariant
            0 <= k <= query@.len(),
            all_included(query@.take(k as int), found@),
        decreases query@.len() - k,
    {
        let present = tags_contain(found, query[k].as_str());
        proof {
            assert(query@.take((k + 1) as int).drop_last() =~= query@.take(k as int));
            assert(query@.take((k + 1) as int).last() == query@[k as int]);
        }
        if !present {
            proof {
                if all_included(query@, found@) {
                    lemma_all_included_index(query@, found@, k as int);
                }
            }
            return false;
        }
        k += 1;
    }
    proof {
        assert(query@.take(query@.len() as int) =~= query@);
    }
    true
}

/// The tags on a file without repetitions: each tag text once, in order
/// of first occurrence.
#[verifier::loop_isolation(false)]
pub fn list_tags_btree(attrs: &Vec<(String, String)>) -> (r: Vec<String>)
    ensures
        forall|i: int, j: int| 0 <= i < j < r@.len() ==> (#[trigger] r@[i])@ != (#[trigger] r@[j])@,
        forall|x: Seq<char>|
            #[trigger] strs_view(r@).contains(x) <==> spec_tag_values(
                attrs_view(attrs@),
            ).contains(x),
{
    let all = list_tags(attrs);
    let ghost tv = spec_tag_values(attrs_view(attrs@));
    let mut out: Vec<String> = Vec::new();
    let mut k: usize = 0;
    while k < all.len()
        invariant
            0 <= k <= all@.len(),
            all@.map_values(|s: String| s@) == tv,
            forall|i: int, j: int|
                0 <= i < j < out@.len() ==> (#[trigger] out@[i])@ != (#[trigger] out@[j])@,
            forall|x: Seq<char>|
                #[trigger] strs_view(out@).contains(x) <==> tv.take(
                    k as int,
                ).contains(x),
        decreases all@.len() - k,
    {
        let ghost outv = strs_view(out@);
        proof {
            assert(tv[k as int] == all@[k as int]@);
        }
        let dup = tags_contain(&out, all[k].as_str());
        if !dup {
            out.push(all[k].clone());
            proof {
                assert(strs_view(out@) =~= outv.push(tv[k as int]));
            }
        } else {
            proof {
                let i = choose|i: int| 0 <= i < out@.len() && out@[i]@ == all@[k as int]@;
                assert(outv.contains(tv[k as int])) by {
                    assert(outv[i] == out@[i]@);
                }
            }
        }
        proof {
            let outv2 = strs_view(out@);
            assert forall|x: Seq<char>| #[trigger] outv2.contains(x) <==> tv.take(
                (k + 1) as int,
            ).contains(x) by {
                if outv2.contains(x) {
                    let w = choose|w: int| 0 <= w < outv2.len() && outv2[w] == x;
                    if w < outv.len() {
                        assert(outv.contains(x)) by {
                            assert(outv[w] == x);
                        }
                        let u = choose|u: int| 0 <= u < k && tv.take(k as int)[u] == x;
                        assert(tv.take((k + 1) as int).contains(x)) by {
                            assert(tv.take((k + 1) as int)[u] == x);
                        }
                    } else {
                        assert(outv2[w] == tv[k as int]);
                        assert(tv.take((k + 1) as int).contains(x)) by {
                            assert(tv.take((k + 1) as int)[k as int] == x);
                        }
                    }
                }
                if tv.take((k + 1) as int).contains(x) {
                    let w = choose|w: int|
                        0 <= w < k + 1 && #[trigger] tv.take((k + 1) as int)[w] == x;
                    if w < k {
                        assert(tv.take(k as int).contains(x)) by {
                            assert(tv.take(k as int)[w] == x);
                        }
                        assert(outv.contains(x));
                        let u = choose|u: int| 0 <= u < outv.len() && outv[u] == x;
                        assert(outv2.contains(x)) by {
                            assert(outv2[u] == x);
                        }
                    } else {
                        assert(x == tv[k as int]);
                        if dup {
                            let u = choose|u: int| 0 <= u < outv.len() && outv[u] == x;
                            assert(outv2.contains(x)) by {
                                assert(outv2[u] == x);
                            }
                        } else {
                            assert(outv2.contains(x)) by {
                                assert(outv2[outv2.len() - 1] == x);
                            }
                        }
                    }
                }
            }
        }
        k += 1;
    }
    proof {
        assert(tv.take(all@.len() as int) =~= tv);
    }
    out
}

/// Prepares tagging a file: reports `TagExists` when the tag is already
/// among the file's attribute values, and success when the caller may go
/// on and set the attribute.
pub fn tag_file(attrs: &Vec<(String, String)>, tag: &str) -> (r: Result<(), Error>)
    ensures
        r is Err <==> spec_tag_values(attrs_view(attrs@)).contains(tag@),
        r matches Err(e) ==> e is TagExists,
{
    let tags = list_tags(attrs);
    let ghost tv = spec_tag_values(attrs_view(attrs@));
    if tags_contain(&tags, tag) {
        proof {
            let i = choose|i: int| 0 <= i < tags@.len() && tags@[i]@ == tag@;
            assert(tv.contains(tag@)) by {
                assert(tv[i] == tags@[i]@);
            }
        }
        Err(Error::TagExists)
    } else {
        proof {
            if tv.contains(tag@) {
                let i = choose|i: int| 0 <= i < tv.len() && tv[i] == tag@;
                assert(tags@[i]@ == tag@);
            }
        }
        Ok(())
    }
}

/// Index of the first attribute whose key is namespaced and whose value
/// is the tag, or -1.
pub open spec fn find_attr(attrs: Seq<(Seq<char>, Seq<char>)>, tag: Seq<char>) -> int
    decreases attrs.len(),
{
    if attrs.len() == 0 {
        -1
    } else if ns_key(attrs[0].0) && attrs[0].1 == tag {
        0
    } else {
        let r = find_attr(attrs.drop_first(), tag);
        if r < 0 {
            -1
        } else {
            r + 1
        }
    }
}

/// What `find_attr` returns.
pub proof fn lemma_find_attr(attrs: Seq<(Seq<char>, Seq<char>)>, tag: Seq<char>)
    ensures
        ({
            let r = find_attr(attrs, tag);
            &&& r == -1 ==> forall|i: int|
                0 <= i < attrs.len() ==> !(ns_key((#[trigger] attrs[i]).0) && attrs[i].1 == tag)
            &&& r != -1 ==> 0 <= r < attrs.len() && ns_key(attrs[r].0) && attrs[r].1 == tag && (
            forall|i: int|
                0 <= i < r ==> !(ns_key((#[trigger] attrs[i]).0) && attrs[i].1 == tag))
        }),
    decreases attrs.len(),
{
    if attrs.len() == 0 {
    } else if ns_key(attrs[0].0) && attrs[0].1 == tag {
    } else {
        let rest = attrs.drop_first();
        lemma_find_attr(rest, tag);
        let rr = find_attr(rest, tag);
        if rr == -1 {
            assert forall|i: int|
                0 <= i < attrs.len() implies !(ns_key((#[trigger] attrs[i]).0) && attrs[i].1
                == tag) by {
                if i > 0 {
                    assert(rest[i - 1] == attrs[i]);
                }
            }
        } else {
            assert(attrs[rr + 1] == rest[rr]);
            assert forall|i: int|
                0 <= i < rr + 1 implies !(ns_key((#[trigger] attrs[i]).0) && attrs[i].1
                == tag) by {
                if i > 0 {
                    assert(rest[i - 1] == attrs[i]);
                }
            }
        }
    }
}

/// Prepares removing a tag from a file: returns the key of the first
/// namespaced attribute holding that tag, for the caller to remove, or
/// `TagNotFound` when no such attribute exists.
#[verifier::loop_isolation(false)]
pub fn remove_tag(attrs: &Vec<(String, String)>, tag: &str) -> (r: Result<String, Error>)
    ensures
        ({
            let f = find_attr(attrs_view(attrs@), tag@);
            &&& f >= 0 ==> (r matches Ok(k) && k@ == attrs_view(attrs@)[f].0)
            &&& f < 0 ==> (r matches Err(e) && e is TagNotFound)
        }),
{
    let ghost av = attrs_view(attrs@);
    let mut k: usize = 0;
    while k < attrs.len()
        invariant
            0 <= k <= attrs@.len(),
            av == attrs_view(attrs@),
            forall|j: int| 0 <= j < k ==> !(ns_key((#[trigger] av[j]).0) && av[j].1 == tag@),
        decreases attrs@.len() - k,
    {
        if text_eq(attrs[k].1.as_str(), tag) && key_has_ns(attrs[k].0.as_str()) {
            proof {
                assert(ns_key(av[k as int].0) && av[k as int].1 == tag@);
                lemma_find_attr(av, tag@);
            }
            return Ok(attrs[k].0.clone());
        }
        proof {
            assert(!(ns_key(av[k as int].0) && av[k as int].1 == tag@));
        }
        k += 1;
    }
    proof {
        lemma_find_attr(av, tag@);
    }
    Err(Error::TagNotFound)
}

/// Prepares clearing a file's tags: the namespaced keys, in order, for
/// the caller to remove one by one.
#[verifier::loop_isolation(false)]
pub fn clear_tags(attrs: &Vec<(String, String)>) -> (r: Vec<String>)
    ensures
        r@.map_values(|s: String| s@) == spec_ns_keys(attrs_view(attrs@)),
{
    let ghost av = attrs_view(attrs@);
    let mut out: Vec<String> = Vec::new();
    let mut k: usize = 0;
    while k < attrs.len()
        invariant
            0 <= k <= attrs@.len(),
            av == attrs_view(attrs@),
            out@.map_values(|s: String| s@) == spec_ns_keys(av.take(k as int)),
        decreases attrs@.len() - k,
    {
        proof {
            assert(av.take((k + 1) as int).drop_last() =~= av.take(k as int));
            assert(av.take((k + 1) as int).last() == av[k as int]);
        }
        if key_has_ns(attrs[k].0.as_str()) {
            out.push(attrs[k].0.clone());
        }
        proof {
            assert(out@.map_values(|s: String| s@) =~= spec_ns_keys(av.take((k + 1) as int)));
        }
        k += 1;
    }
    proof {
        assert(av.take(attrs@.len() as int) =~= av);
    }
    out
}

} // verus!
