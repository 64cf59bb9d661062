use vstd::prelude::*;

use crate::log::CookieLog;

verus! {

/// How many records of `s` carry the identifier `id`.
pub open spec fn count_of(s: Seq<CookieLog>, id: Seq<char>) -> nat
    decreases s.len(),
{
    if s.len() == 0 {
        0
    } else {
        count_of(s.drop_last(), id) + if s.last().cookie@ == id {
            1nat
        } else {
            0nat
        }
    }
}

/// Whether some record of `s` carries the identifier `id`.
pub open spec fn occurs(s: Seq<CookieLog>, id: Seq<char>) -> bool {
    exists|i: int| 0 <= i < s.len() && #[trigger] s[i].cookie@ == id
}

/// Whether `id` occurs in `s` and no identifier of `s` occurs more often.
pub open spec fn is_most_active(s: Seq<CookieLog>, id: Seq<char>) -> bool {
    &&& occurs(s, id)
    &&& forall|i: int| 0 <= i < s.len() ==> count_of(s, #[trigger] s[i].cookie@) <= count_of(s, id)
}

/// The text of each string.
pub open spec fn views(v: Seq<String>) -> Seq<Seq<char>> {
    v.map_values(|c: String| c@)
}

proof fn lemma_count_le_len(s: Seq<CookieLog>, id: Seq<char>)
    ensures
        count_of(s, id) <= s.len(),
    decreases s.len(),
{
    if s.len() > 0 {
        lemma_count_le_len(s.drop_last(), id);
    }
}

proof fn lemma_count_step(s: Seq<CookieLog>, i: int, id: Seq<char>)
    requires
        0 <= i < s.len(),
    ensures
        count_of(s.take(i + 1), id) == count_of(s.take(i), id) + if s[i].cookie@ == id {
            1int
        } else {
            0int
        },
{
    assert(s.take(i + 1).drop_last() =~= s.take(i));
}

/// Any two most active identifiers occur equally often.
pub proof fn lemma_most_active_tied(s: Seq<CookieLog>, x: Seq<char>, y: Seq<char>)
    requires
        is_most_active(s, x),
        is_most_active(s, y),
    ensures
        count_of(s, x) == count_of(s, y),
{
    let i = choose|i: int| 0 <= i < s.len() && #[trigger] s[i].cookie@ == x;
    let j = choose|j: int| 0 <= j < s.len() && #[trigger] s[j].cookie@ == y;
    assert(count_of(s, s[i].cookie@) <= count_of(s, y));
    assert(count_of(s, s[j].cookie@) <= count_of(s, x));
}

/// Once one most active identifier `x` is known, the most active identifiers
/// are exactly those of `s` that occur as often as `x`.
pub proof fn lemma_most_active_by_count(s: Seq<CookieLog>, x: Seq<char>, y: Seq<char>)
    requires
        is_most_active(s, x),
    ensures
        is_most_active(s, y) <==> occurs(s, y) && count_of(s, y) == count_of(s, x),
{
    if is_most_active(s, y) {
        lemma_most_active_tied(s, x, y);
    }
}

/// An empty log has no most active identifier.
pub proof fn lemma_empty_log_has_none(s: Seq<CookieLog>, x: Seq<char>)
    requires
        s.len() == 0,
    ensures
        !is_most_active(s, x),
{
}

/// Among the first `n` records, some record's identifier occurs at least as
/// often as that of every other.
proof fn lemma_top_index(s: Seq<CookieLog>, n: int) -> (t: int)
    requires
        0 < n <= s.len(),
    ensures
        0 <= t < n,
        forall|j: int| 0 <= j < n ==> count_of(s, #[trigger] s[j].cookie@) <= count_of(s, s[t].cookie@),
    decreases n,
{
    if n == 1 {
        0
    } else {
        let t = lemma_top_index(s, n - 1);
        if count_of(s, s[n - 1].cookie@) > count_of(s, s[t].cookie@) {
            n - 1
        } else {
            t
        }
    }
}

/// A log with at least one record has a most active identifier.
pub proof fn lemma_most_active_exists(s: Seq<CookieLog>)
    requires
        s.len() > 0,
    ensures
        exists|x: Seq<char>| is_most_active(s, x),
{
    let t = lemma_top_index(s, s.len() as int);
    assert(is_most_active(s, s[t].cookie@));
}

/// The index of `id` in `ids`, if it is there.
fn position_of(ids: &Vec<String>, id: &String) -> (r: Option<usize>)
    ensures
        r matches Some(j) ==> j < ids.len() && ids[j as int]@ == id@,
        r is None ==> forall|k: int| 0 <= k < ids.len() ==> ids[k]@ != id@,
{
    let mut j: usize = 0;
    while j < ids.len()
        invariant
            j <= ids.len(),
            forall|k: int| 0 <= k < j ==> ids[k]@ != id@,
        decreases ids.len() - j,
    {
        if ids[j] == *id {
            return Some(j);
        }
        j = j + 1;
    }
    None
}

/// The distinct identifiers of `cookies`, in the order they first occur,
/// each beside its count.
fn count_cookies(cookies: &Vec<CookieLog>) -> (r: (Vec<String>, Vec<usize>))
    ensures
        r.0.len() == r.1.len(),
        forall|a: int, b: int| 0 <= a < b < r.0.len() ==> r.0[a]@ != r.0[b]@,
        forall|k: int|
            0 <= k < r.0.len() ==> r.1[k] == count_of(cookies@, #[trigger] r.0[k]@) && occurs(
                cookies@,
                r.0[k]@,
            ),
        forall|j: int| 0 <= j < cookies.len() ==> views(r.0@).contains(#[trigger] cookies[j].cookie@),
{
    let ghost s = cookies@;
    let mut ids: Vec<String> = Vec::new();
    let mut counts: Vec<usize> = Vec::new();
    // `slot[j]` is where the identifier of record `j` stands in `ids`;
    // `origin[k]` is a record that carries `ids[k]`.
    let ghost mut slot: Seq<int> = Seq::empty();
    let ghost mut origin: Seq<int> = Seq::empty();
    let mut i: usize = 0;
    while i < cookies.len()
        invariant
            s == cookies@,
            i <= cookies.len(),
            ids.len() == counts.len(),
            slot.len() == i,
            origin.len() == ids.len(),
            forall|a: int, b: int| 0 <= a < b < ids.len() ==> ids[a]@ != ids[b]@,
            forall|k: int|
                0 <= k < ids.len() ==> counts[k] == count_of(s.take(i as int), #[trigger] ids[k]@),
            forall|k: int|
                0 <= k < ids.len() ==> 0 <= #[trigger] origin[k] < i && s[origin[k]].cookie@
                    == ids[k]@,
            forall|j: int|
                0 <= j < i ==> 0 <= #[trigger] slot[j] < ids.len() && ids[slot[j]]@
                    == s[j].cookie@,
        decreases cookies.len() - i,
    {
        let c = &cookies[i];
        proof {
            assert forall|k: int| 0 <= k < ids.len() implies count_of(
                s.take(i + 1),
                #[trigger] ids[k]@,
            ) == count_of(s.take(i as int), ids[k]@) + if s[i as int].cookie@ == ids[k]@ {
                1int
            } else {
                0int
            } by {
                lemma_count_step(s, i as int, ids[k]@);
            }
        }
        match position_of(&ids, &c.cookie) {
            Some(j) => {
                proof {
                    lemma_count_le_len(s.take(i as int), ids[j as int]@);
                }
                let v = counts[j] + 1;
                counts.set(j, v);
                proof {
                    slot = slot.push(j as int);
                }
            },
            None => {
                proof {
                    lemma_count_step(s, i as int, c.cookie@);
                    assert(!occurs(s.take(i as int), c.cookie@)) by {
                        if occurs(s.take(i as int), c.cookie@) {
                            let j = choose|j: int|
                                0 <= j < i && #[trigger] s.take(i as int)[j].cookie@ == c.cookie@;
                            assert(ids[slot[j]]@ == c.cookie@);
                        }
                    }
                    lemma_count_absent(s.take(i as int), c.cookie@);
                    slot = slot.push(ids.len() as int);
                    origin = origin.push(i as int);
                }
                ids.push(c.cookie.clone());
                counts.push(1);
            },
        }
        i = i + 1;
    }
    proof {
        assert(s.take(i as int) =~= s);
        assert forall|k: int| 0 <= k < ids.len() implies occurs(s, #[trigger] ids[k]@) by {
            assert(s[origin[k]].cookie@ == ids[k]@);
        }
        assert forall|j: int| 0 <= j < cookies.len() implies views(ids@).contains(
            #[trigger] cookies[j].cookie@,
        ) by {
            assert(views(ids@)[slot[j]] == cookies[j].cookie@);
        }
    }
    (ids, counts)
}

/// The identifiers that occur most often among `cookies`, each once, ties
/// included; none where `cookies` is empty. Their order is not part of the
/// contract.
pub fn most_active_cookies(cookies: Vec<CookieLog>) -> (r: Vec<String>)
    ensures
        views(r@).no_duplicates(),
        forall|x: Seq<char>| views(r@).contains(x) <==> is_most_active(cookies@, x),
{
    let ghost s = cookies@;
    let (ids, counts) = count_cookies(&cookies);
    let mut max: usize = 0;
    let ghost mut top: int = 0;
    let mut k: usize = 0;
    while k < counts.len()
        invariant
            k <= counts.len(),
            forall|a: int| 0 <= a < k ==> counts[a] <= max,
            k > 0 ==> 0 <= top < k && counts[top] == max,
        decreases counts.len() - k,
    {
        if counts[k] > max || k == 0 {
            max = counts[k];
            proof {
                top = k as int;
            }
        }
        k = k + 1;
    }
    let mut r: Vec<String> = Vec::new();
    // `from[b]` is the index in `ids` of `r[b]`.
    let ghost mut from: Seq<int> = Seq::empty();
    k = 0;
    while k < ids.len()
        invariant
            k <= ids.len(),
            ids.len() == counts.len(),
            forall|a: int, b: int| 0 <= a < b < ids.len() ==> ids[a]@ != ids[b]@,
            from.len() == r.len(),
            forall|b: int|
                0 <= b < r.len() ==> 0 <= #[trigger] from[b] < k && counts[from[b]] == max
                    && r[b]@ == ids[from[b]]@,
            forall|b: int, c: int| 0 <= b < c < r.len() ==> from[b] < from[c],
            forall|a: int|
                0 <= a < k && counts[a] == max ==> views(r@).contains(#[trigger] ids[a]@),
        decreases ids.len() - k,
    {
        if counts[k] == max {
            let ghost before = r@;
            r.push(ids[k].clone());
            proof {
                from = from.push(k as int);
                assert forall|a: int|
                    0 <= a < k + 1 && counts[a] == max implies views(r@).contains(
                    #[trigger] ids[a]@,
                ) by {
                    if a < k {
                        let b = choose|b: int| 0 <= b < before.len() && views(before)[b] == ids[a]@;
                        assert(views(r@)[b] == ids[a]@);
                    } else {
                        assert(views(r@)[r.len() - 1] == ids[a]@);
                    }
                }
            }
        }
        k = k + 1;
    }
    proof {
        assert forall|b: int, c: int|
            0 <= b < views(r@).len() && 0 <= c < views(r@).len() && b != c implies views(r@)[b]
            != views(r@)[c] by {
            if b < c {
                assert(ids[from[b]]@ != ids[from[c]]@);
            } else {
                assert(ids[from[c]]@ != ids[from[b]]@);
            }
        }
        assert forall|x: Seq<char>| views(r@).contains(x) implies is_most_active(s, x) by {
            let b = choose|b: int| 0 <= b < views(r@).len() && views(r@)[b] == x;
            let a = from[b];
            assert(r[b]@ == ids[a]@);
            assert(occurs(s, ids[a]@));
            assert forall|i: int| 0 <= i < s.len() implies count_of(s, #[trigger] s[i].cookie@)
                <= count_of(s, x) by {
                assert(cookies[i] == s[i]);
                let c = choose|c: int| 0 <= c < views(ids@).len() && views(ids@)[c] == s[i].cookie@;
                assert(ids[c]@ == s[i].cookie@);
            }
        }
        assert forall|x: Seq<char>| is_most_active(s, x) implies views(r@).contains(x) by {
            let i = choose|i: int| 0 <= i < s.len() && #[trigger] s[i].cookie@ == x;
            assert(cookies[i] == s[i]);
            let a = choose|a: int| 0 <= a < views(ids@).len() && views(ids@)[a] == x;
            assert(ids[a]@ == x);
            let t = top;
            assert(occurs(s, ids[t]@));
            let i0 = choose|i0: int| 0 <= i0 < s.len() && #[trigger] s[i0].cookie@ == ids[t]@;
            assert(count_of(s, s[i0].cookie@) <= count_of(s, x));
            assert(counts[a] == max);
        }
    }
    r
}

proof fn lemma_count_absent(s: Seq<CookieLog>, id: Seq<char>)
    requires
        !occurs(s, id),
    ensures
        count_of(s, id) == 0,
    decreases s.len(),
{
    if s.len() > 0 {
        assert(s.last() == s[s.len() - 1]);
        assert(!occurs(s.drop_last(), id)) by {
            if occurs(s.drop_last(), id) {
                let i = choose|i: int| 0 <= i < s.len() - 1 && #[trigger] s.drop_last()[i].cookie@ == id;
                assert(s[i].cookie@ == id);
            }
        }
        lemma_count_absent(s.drop_last(), id);
    }
}

} // verus!
