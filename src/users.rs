//! Listing user identifiers: filtering by substring and limiting the count.
use vstd::prelude::*;

use crate::lines::{parse_users, records, ListError};
use crate::text::{contains, has_substring};

verus! {

/// The filter as text: `None` keeps every record.
pub open spec fn filter_view(filter: Option<String>) -> Option<Seq<char>> {
    match filter {
        Some(f) => Some(f@),
        None => None,
    }
}

/// A record passes the filter when the filter is absent or occurs in it.
pub open spec fn passes(user: Seq<char>, filter: Option<Seq<char>>) -> bool {
    match filter {
        Some(f) => has_substring(user, f),
        None => true,
    }
}

/// The records that pass the filter, in their original order.
pub open spec fn kept(users: Seq<Seq<char>>, filter: Option<Seq<char>>) -> Seq<Seq<char>>
    decreases users.len(),
{
    if users.len() == 0 {
        Seq::empty()
    } else {
        let rest = kept(users.drop_last(), filter);
        if passes(users.last(), filter) {
            rest.push(users.last())
        } else {
            rest
        }
    }
}

/// The first `limit` records that pass the filter (all of them if fewer pass).
pub open spec fn selected(users: Seq<Seq<char>>, filter: Option<Seq<char>>, limit: nat) -> Seq<
    Seq<char>,
> {
    let k = kept(users, filter);
    if k.len() <= limit {
        k
    } else {
        k.take(limit as int)
    }
}

/// `idx` lists, for each record of `a`, the position in `b` that it was
/// taken from; the positions strictly increase.
pub open spec fn taken_from(a: Seq<Seq<char>>, b: Seq<Seq<char>>, idx: Seq<int>) -> bool {
    &&& idx.len() == a.len()
    &&& forall|j: int| 0 <= j < idx.len() ==> 0 <= #[trigger] idx[j] < b.len() && a[j] == b[idx[j]]
    &&& forall|j: int, k: int| 0 <= j < k < idx.len() ==> #[trigger] idx[j] < #[trigger] idx[k]
}

/// `a` is `b` with some records left out, the rest in the same order.
pub open spec fn is_subsequence(a: Seq<Seq<char>>, b: Seq<Seq<char>>) -> bool {
    exists|idx: Seq<int>| #[trigger] taken_from(a, b, idx)
}

proof fn lemma_kept_len(users: Seq<Seq<char>>, filter: Option<Seq<char>>)
    ensures
        kept(users, filter).len() <= users.len(),
    decreases users.len(),
{
    if users.len() > 0 {
        lemma_kept_len(users.drop_last(), filter);
    }
}

/// Filtering a concatenation filters each part.
proof fn lemma_kept_append(a: Seq<Seq<char>>, b: Seq<Seq<char>>, filter: Option<Seq<char>>)
    ensures
        kept(a + b, filter) == kept(a, filter) + kept(b, filter),
    decreases b.len(),
{
    if b.len() == 0 {
        assert(a + b == a);
        assert(kept(b, filter) == Seq::<Seq<char>>::empty());
        assert(kept(a, filter) + kept(b, filter) == kept(a, filter));
    } else {
        lemma_kept_append(a, b.drop_last(), filter);
        assert((a + b).drop_last() == a + b.drop_last());
        assert((a + b).last() == b.last());
        if passes(b.last(), filter) {
            assert(kept(a, filter) + kept(b.drop_last(), filter).push(b.last()) == (kept(a, filter)
                + kept(b.drop_last(), filter)).push(b.last()));
        }
    }
}

/// One more record of the input adds at most that record to what is kept.
proof fn lemma_kept_step(users: Seq<Seq<char>>, i: int, filter: Option<Seq<char>>)
    requires
        0 <= i < users.len(),
    ensures
        kept(users.take(i + 1), filter) == if passes(users[i], filter) {
            kept(users.take(i), filter).push(users[i])
        } else {
            kept(users.take(i), filter)
        },
{
    assert(users.take(i + 1).drop_last() == users.take(i));
    assert(users.take(i + 1).last() == users[i]);
}

/// Keeps, of `users`, in their order, at most `limit` records, each of which
/// contains `filter` when one is given.
pub fn filter_users(users: Vec<String>, filter: Option<String>, limit: usize) -> (r: Vec<String>)
    ensures
        r.deep_view() == selected(users.deep_view(), filter_view(filter), limit as nat),
        r.len() <= limit,
        forall|i: int| 0 <= i < r.len() ==> passes(#[trigger] r[i]@, filter_view(filter)),
{
    let ghost all = users.deep_view();
    let ghost f = filter_view(filter);
    let mut out: Vec<String> = Vec::new();
    let mut i: usize = 0;
    while i < users.len() && out.len() < limit
        invariant
            0 <= i <= users.len(),
            all == users.deep_view(),
            f == filter_view(filter),
            out.deep_view() == kept(all.take(i as int), f),
            out.len() <= limit,
        decreases users.len() - i,
    {
        proof {
            lemma_kept_step(all, i as int, f);
        }
        let keep = match &filter {
            Some(p) => contains(users[i].as_str(), p.as_str()),
            None => true,
        };
        if keep {
            out.push(users[i].clone());
            assert(out.deep_view() == kept(all.take(i as int), f).push(all[i as int]));
        }
        i = i + 1;
    }
    proof {
        lemma_kept_append(all.take(i as int), all.skip(i as int), f);
        assert(all.take(i as int) + all.skip(i as int) == all);
        lemma_kept_len(all.take(i as int), f);
        if out.len() == limit {
            assert(kept(all, f).take(limit as int) == out.deep_view());
        } else {
            assert(all.take(i as int) == all);
        }
        assert(out.deep_view() == selected(all, f, limit as nat));
        lemma_selected_pass(all, f, limit as nat);
        assert forall|j: int| 0 <= j < out.len() implies passes(#[trigger] out[j]@, f) by {
            assert(selected(all, f, limit as nat)[j] == out[j]@);
        }
    }
    out
}

/// What came of reading the users file.
pub enum UsersFile {
    /// The file was opened and read to its end: these are its bytes.
    Read(Vec<u8>),
    /// The file could not be opened.
    CannotOpen,
    /// The file was opened, but reading it failed.
    CannotRead,
}

/// Lists the users of a file: its records that contain `filter` (all of them
/// when there is none), in file order, at most `limit` of them.
pub fn list_users(file: UsersFile, filter: Option<String>, limit: usize) -> (r: Result<
    Vec<String>,
    ListError,
>)
    ensures
        match file {
            UsersFile::CannotOpen => r == Err::<Vec<String>, ListError>(ListError::FileOpen),
            UsersFile::CannotRead => r == Err::<Vec<String>, ListError>(ListError::LineDecode),
            UsersFile::Read(b) => match records(b@) {
                None => r == Err::<Vec<String>, ListError>(ListError::LineDecode),
                Some(users) => r matches Ok(v) && v.deep_view() == selected(
                    users,
                    filter_view(filter),
                    limit as nat,
                ),
            },
        },
{
    match file {
        UsersFile::CannotOpen => Err(ListError::FileOpen),
        UsersFile::CannotRead => Err(ListError::LineDecode),
        UsersFile::Read(b) => match parse_users(&b) {
            Ok(users) => Ok(filter_users(users, filter, limit)),
            Err(e) => Err(e),
        },
    }
}

/// Every record of a selection passes the filter.
pub proof fn lemma_selected_pass(users: Seq<Seq<char>>, filter: Option<Seq<char>>, limit: nat)
    ensures
        forall|i: int|
            0 <= i < selected(users, filter, limit).len() ==> passes(
                #[trigger] selected(users, filter, limit)[i],
                filter,
            ),
{
    lemma_kept_pass(users, filter);
}

/// A selection never holds more than `limit` records.
pub proof fn lemma_selected_len(users: Seq<Seq<char>>, filter: Option<Seq<char>>, limit: nat)
    ensures
        selected(users, filter, limit).len() <= limit,
        selected(users, filter, limit).len() <= users.len(),
{
    lemma_kept_len(users, filter);
}

/// A selection keeps the records in the order in which they stand in `users`.
pub proof fn lemma_selected_in_order(users: Seq<Seq<char>>, filter: Option<Seq<char>>, limit: nat)
    ensures
        is_subsequence(selected(users, filter, limit), users),
{
    let idx = lemma_kept_positions(users, filter);
    let sel = selected(users, filter, limit);
    let sidx = idx.take(sel.len() as int);
    assert(taken_from(sel, users, sidx));
}

/// Selecting again, with the same filter and limit, from a selection gives
/// the selection back.
pub proof fn lemma_selected_idempotent(users: Seq<Seq<char>>, filter: Option<Seq<char>>, limit: nat)
    ensures
        selected(selected(users, filter, limit), filter, limit) == selected(users, filter, limit),
{
    let sel = selected(users, filter, limit);
    lemma_selected_pass(users, filter, limit);
    lemma_selected_len(users, filter, limit);
    lemma_kept_all_pass(sel, filter);
}

/// Where every record passes, filtering keeps them all.
proof fn lemma_kept_all_pass(users: Seq<Seq<char>>, filter: Option<Seq<char>>)
    requires
        forall|i: int| 0 <= i < users.len() ==> passes(#[trigger] users[i], filter),
    ensures
        kept(users, filter) == users,
    decreases users.len(),
{
    if users.len() > 0 {
        let init = users.drop_last();
        assert forall|i: int| 0 <= i < init.len() implies passes(#[trigger] init[i], filter) by {
            assert(init[i] == users[i]);
        }
        lemma_kept_all_pass(init, filter);
        assert(passes(users[users.len() - 1], filter));
        assert(init.push(users.last()) == users);
    }
}

/// The positions in `users` of the records that filtering keeps.
proof fn lemma_kept_positions(users: Seq<Seq<char>>, filter: Option<Seq<char>>) -> (idx: Seq<int>)
    ensures
        taken_from(kept(users, filter), users, idx),
    decreases users.len(),
{
    if users.len() == 0 {
        Seq::empty()
    } else {
        let init = users.drop_last();
        let prev = lemma_kept_positions(init, filter);
        let n = users.len() - 1;
        if passes(users.last(), filter) {
            let idx = prev.push(n);
            let k = kept(users, filter);
            assert forall|j: int| 0 <= j < idx.len() implies 0 <= #[trigger] idx[j] < users.len()
                && k[j] == users[idx[j]] by {
                if j < prev.len() {
                    assert(idx[j] == prev[j]);
                    assert(users[prev[j]] == init[prev[j]]);
                }
            }
            idx
        } else {
            assert forall|j: int| 0 <= j < prev.len() implies 0 <= #[trigger] prev[j] < users.len()
                && kept(users, filter)[j] == users[prev[j]] by {
                assert(users[prev[j]] == init[prev[j]]);
            }
            prev
        }
    }
}

proof fn lemma_kept_pass(users: Seq<Seq<char>>, filter: Option<Seq<char>>)
    ensures
        forall|i: int|
            0 <= i < kept(users, filter).len() ==> passes(#[trigger] kept(users, filter)[i], filter),
    decreases users.len(),
{
    if users.len() > 0 {
        let rest = kept(users.drop_last(), filter);
        lemma_kept_pass(users.drop_last(), filter);
        assert forall|i: int| 0 <= i < kept(users, filter).len() implies passes(
            #[trigger] kept(users, filter)[i],
            filter,
        ) by {
            if i < rest.len() {
                assert(kept(users, filter)[i] == rest[i]);
            }
        }
    }
}

} // verus!
