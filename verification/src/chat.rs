//! The chat and library listings: which records belong to a thread, how
//! many pages are read, and in which order the results are shown.

use crate::order::{before, by_key, first_in_order, is_stable_order, text_le, Newest, TextKey};
use crate::text::{
    extend_chars, extend_str, from_chars, lemma_trailing_unique, slice_chars, strip_trailing,
    to_chars, trim, trim_chars,
};
use vstd::prelude::*;

verus! {

/// Records asked for per page of a thread listing.
pub const LIST_PAGE_SIZE: usize = 100;

/// Most pages read for a thread listing.
pub const LIST_MAX_PAGES: usize = 5;

/// Whether a record belongs to the thread that is listed: its thread id is
/// exactly the requested one.
pub fn belongs_to_thread(record_thread: Option<&str>, thread_id: &str) -> (r: bool)
    ensures
        r == (record_thread matches Some(t) && t@ == thread_id@),
{
    match record_thread {
        Some(t) => crate::text::str_eq(t, thread_id),
        None => false,
    }
}

/// Whether a listing reads another page after page number `page`, counted
/// from one, came back with `page_len` records: the page was full, the
/// listing is not full, and the page limit is not reached.
pub fn wants_next_page(page: usize, page_len: usize, collected: usize, limit: usize) -> (r: bool)
    ensures
        r == (page < LIST_MAX_PAGES && page_len >= LIST_PAGE_SIZE && collected < limit),
{
    page < LIST_MAX_PAGES && page_len >= LIST_PAGE_SIZE && collected < limit
}

/// The order of records by creation time as text.
pub open spec fn by_creation(created: Seq<String>) -> spec_fn(int, int) -> bool {
    |i: int, j: int| text_le(created[i]@, created[j]@)
}

/// The records of a thread in the order they are shown: by creation time
/// as text, oldest first, records of the same time in the order they were
/// read, and of these the first `limit`.  The result lists positions in
/// `created`.
pub fn order_by_creation(created: &Vec<String>, limit: usize) -> (r: Vec<usize>)
    ensures
        exists|order: Seq<usize>|
            #[trigger] is_stable_order(by_creation(created@), created@.len(), order) && r@
                == order.take(
                if limit < created.len() {
                    limit as int
                } else {
                    created.len() as int
                },
            ),
{
    let mut keys: Vec<TextKey> = Vec::new();
    let mut i: usize = 0;
    while i < created.len()
        invariant
            i <= created.len(),
            keys@.len() == i,
            forall|k: int| 0 <= k < i ==> (#[trigger] keys@[k]).0@ == created@[k]@,
        decreases created.len() - i,
    {
        keys.push(TextKey(to_chars(created[i].as_str())));
        i = i + 1;
    }
    let r = first_in_order(&keys, limit);
    proof {
        let order = choose|order: Seq<usize>|
            #[trigger] is_stable_order(by_key(keys@), keys@.len(), order) && r@ == order.take(
                if limit < keys.len() {
                    limit as int
                } else {
                    keys.len() as int
                },
            );
        assert forall|a: int, b: int| 0 <= a < b < order.len() implies before(
            by_creation(created@),
            (#[trigger] order[a]) as int,
            (#[trigger] order[b]) as int,
        ) by {
            assert(before(by_key(keys@), order[a] as int, order[b] as int));
        }
        assert(is_stable_order(by_creation(created@), created@.len(), order));
    }
    r
}

/// The order of files by modification time, newest first.
pub open spec fn by_recency(modified: Seq<i64>) -> spec_fn(int, int) -> bool {
    |i: int, j: int| modified[i] >= modified[j]
}

/// The files of a listing in the order they are shown: by modification
/// time, newest first, files of the same time in the order they were found,
/// and of these the first `limit`.  The result lists positions in
/// `modified`.
pub fn order_newest_first(modified: &Vec<i64>, limit: usize) -> (r: Vec<usize>)
    ensures
        exists|order: Seq<usize>|
            #[trigger] is_stable_order(by_recency(modified@), modified@.len(), order) && r@
                == order.take(
                if limit < modified.len() {
                    limit as int
                } else {
                    modified.len() as int
                },
            ),
{
    let mut keys: Vec<Newest> = Vec::new();
    let mut i: usize = 0;
    while i < modified.len()
        invariant
            i <= modified.len(),
            keys@.len() == i,
            forall|k: int| 0 <= k < i ==> (#[trigger] keys@[k]) == Newest(modified@[k]),
        decreases modified.len() - i,
    {
        keys.push(Newest(modified[i]));
        i = i + 1;
    }
    let r = first_in_order(&keys, limit);
    proof {
        let order = choose|order: Seq<usize>|
            #[trigger] is_stable_order(by_key(keys@), keys@.len(), order) && r@ == order.take(
                if limit < keys.len() {
                    limit as int
                } else {
                    keys.len() as int
                },
            );
        assert forall|a: int, b: int| 0 <= a < b < order.len() implies before(
            by_recency(modified@),
            (#[trigger] order[a]) as int,
            (#[trigger] order[b]) as int,
        ) by {
            assert(before(by_key(keys@), order[a] as int, order[b] as int));
        }
        assert(is_stable_order(by_recency(modified@), modified@.len(), order));
    }
    r
}

pub open spec fn is_slash(c: char) -> bool {
    c == '/'
}

/// The address of a collection's records:
/// `<base>/api/collections/<collection>/records`, the base without trailing
/// slashes and the collection trimmed.
pub open spec fn records_address(base_url: Seq<char>, collection: Seq<char>) -> Seq<char> {
    strip_trailing(base_url, |c: char| is_slash(c)) + "/api/collections/"@ + trim(collection)
        + "/records"@
}

fn char_is_slash(c: char) -> (r: bool)
    ensures
        r == is_slash(c),
{
    c == '/'
}

pub fn records_url(base_url: &str, collection: &str) -> (r: String)
    ensures
        r@ == records_address(base_url@, collection@),
{
    let base = to_chars(base_url);
    let ghost p = |c: char| is_slash(c);
    let mut b: usize = base.len();
    while b > 0 && char_is_slash(base[b - 1])
        invariant
            b <= base.len(),
            forall|c: char| p(c) == is_slash(c),
            forall|k: int| b <= k < base.len() ==> p(#[trigger] base@[k]),
        decreases b,
    {
        b = b - 1;
    }
    proof {
        lemma_trailing_unique(base@, p, base.len() - b);
    }
    let mut out = slice_chars(&base, 0, b);
    assert(out@ == base@.take(b as int));
    extend_str(&mut out, "/api/collections/");
    let name = trim_chars(&to_chars(collection));
    extend_chars(&mut out, &name);
    extend_str(&mut out, "/records");
    from_chars(&out)
}

/// The address of one record of a collection.
pub fn record_url(base_url: &str, collection: &str, id: &str) -> (r: String)
    ensures
        r@ == records_address(base_url@, collection@) + "/"@ + id@,
{
    let mut out = to_chars(records_url(base_url, collection).as_str());
    extend_str(&mut out, "/");
    extend_str(&mut out, id);
    from_chars(&out)
}

/// The tags of a journal entry as one field: joined by commas.
pub open spec fn joined(tags: Seq<String>) -> Seq<char>
    decreases tags.len(),
{
    if tags.len() == 0 {
        Seq::empty()
    } else if tags.len() == 1 {
        tags[0]@
    } else {
        joined(tags.drop_last()) + ","@ + tags.last()@
    }
}

pub fn join_tags(tags: &Vec<String>) -> (r: String)
    ensures
        r@ == joined(tags@),
{
    let mut out: Vec<char> = Vec::new();
    let mut i: usize = 0;
    assert(tags@.take(0) =~= Seq::<String>::empty());
    while i < tags.len()
        invariant
            i <= tags.len(),
            out@ == joined(tags@.take(i as int)),
        decreases tags.len() - i,
    {
        proof {
            assert(tags@.take(i + 1).drop_last() =~= tags@.take(i as int));
            assert(tags@.take(i + 1).last() == tags@[i as int]);
            assert(tags@.take(i + 1)[0] == tags@[0]);
        }
        if i > 0 {
            extend_str(&mut out, ",");
        }
        extend_str(&mut out, tags[i].as_str());
        proof {
            if i == 0 {
                assert(out@ =~= tags@[0]@);
            } else {
                assert(out@ =~= joined(tags@.take(i as int)) + ","@ + tags@[i as int]@);
            }
        }
        i = i + 1;
    }
    assert(tags@.take(tags.len() as int) =~= tags@);
    from_chars(&out)
}

} // verus!
