use vstd::prelude::*;

verus! {

/// Sum of the first `x` values of `row`.
pub open spec fn prefix(row: Seq<u32>, x: int) -> int
    decreases x,
{
    if x <= 0 || row.len() == 0 {
        0
    } else {
        prefix(row, x - 1) + row[x - 1]
    }
}

/// The itineraries as plain sequences.
pub open spec fn rows(v: Seq<Vec<u32>>) -> Seq<Seq<u32>> {
    v.map_values(|r: Vec<u32>| r@)
}

/// The most attractions over cities `0..=i` in `l` days, where city `i`
/// gets at most `x` of them; a city given `y` days shows the first `y`
/// attractions of its itinerary.
pub open spec fn plan(a: Seq<Seq<u32>>, i: int, l: int, x: int) -> int
    decreases i, x,
{
    if i <= 0 {
        prefix(a[0], l)
    } else if x <= 0 {
        plan(a, i - 1, l, l)
    } else {
        let without = plan(a, i, l, x - 1);
        let with = prefix(a[i], x) + plan(a, i - 1, l - x, l - x);
        if without < with { with } else { without }
    }
}

/// The most attractions over cities `0..=i` in exactly `l` days.
pub open spec fn best_days(a: Seq<Seq<u32>>, i: int, l: int) -> int {
    plan(a, i, l, l)
}

/// All attractions of cities `0..=i`.
pub open spec fn rows_total(a: Seq<Seq<u32>>, i: int) -> int
    decreases i + 1,
{
    if i < 0 {
        0
    } else {
        rows_total(a, i - 1) + prefix(a[i], a[i].len() as int)
    }
}

proof fn lemma_prefix_nonneg(row: Seq<u32>, x: int)
    ensures
        0 <= prefix(row, x),
    decreases x,
{
    if x > 0 {
        lemma_prefix_nonneg(row, x - 1);
    }
}

proof fn lemma_prefix_bounds(row: Seq<u32>, x: int, y: int)
    requires
        0 <= x <= y <= row.len(),
    ensures
        0 <= prefix(row, x) <= prefix(row, y),
    decreases y,
{
    lemma_prefix_nonneg(row, x);
    if x < y {
        lemma_prefix_bounds(row, x, y - 1);
    }
}

proof fn lemma_plan_bounds(a: Seq<Seq<u32>>, k: int, i: int, l: int, x: int)
    requires
        0 <= i < a.len(),
        forall|c: int| 0 <= c < a.len() ==> #[trigger] a[c].len() == k,
        0 <= x <= l <= k,
    ensures
        0 <= plan(a, i, l, x) <= rows_total(a, i),
    decreases i, x,
{
    if i <= 0 {
        lemma_prefix_bounds(a[0], l, k);
        assert(rows_total(a, -1) == 0);
    } else if x <= 0 {
        lemma_plan_bounds(a, k, i - 1, l, l);
        lemma_prefix_bounds(a[i], 0, k);
    } else {
        lemma_plan_bounds(a, k, i, l, x - 1);
        lemma_plan_bounds(a, k, i - 1, l - x, l - x);
        lemma_prefix_bounds(a[i], x, k);
    }
}

proof fn lemma_no_days(a: Seq<Seq<u32>>, i: int)
    requires
        0 <= i,
    ensures
        plan(a, i, 0, 0) == 0,
    decreases i,
{
    if i > 0 {
        lemma_no_days(a, i - 1);
    }
}

/// The most attractions visited in `k` days over `n` cities, where each
/// city is visited for some number of days from the start of its itinerary.
pub fn find_maximum_attractions(n: usize, k: usize, attractions: Vec<Vec<u32>>) -> (r: u32)
    requires
        n == attractions.len(),
        n >= 1,
        n > 1 ==> k >= 1,
        k < usize::MAX,
        forall|c: int| 0 <= c < n ==> #[trigger] attractions@[c]@.len() == k,
        rows_total(rows(attractions@), n - 1) <= u32::MAX,
    ensures
        r == best_days(rows(attractions@), n - 1, k as int),
{
    let ghost a = rows(attractions@);
    proof {
        assert forall|c: int| 0 <= c < a.len() implies #[trigger] a[c].len() == k by {
            assert(a[c] == attractions@[c]@);
        }
    }
    let columns: usize = k + 1;
    // the best totals over the cities so far, for each number of days
    let mut previous: Vec<u32> = Vec::new();
    previous.push(0);
    let first = &attractions[0];
    proof {
        lemma_total_grows(a, 0, n - 1);
    }
    let mut i: usize = 0;
    while i < columns - 1
        invariant
            i <= k,
            columns == k + 1,
            first@ == a[0],
            a[0].len() == k,
            previous@.len() == i + 1,
            forall|l: int| 0 <= l <= i ==> #[trigger] previous@[l] == prefix(a[0], l),
            rows_total(a, 0) <= u32::MAX,
        decreases k - i,
    {
        proof {
            lemma_prefix_bounds(a[0], i + 1, k as int);
            assert(rows_total(a, -1) == 0);
        }
        let next = previous[i] + first[i];
        previous.push(next);
        i = i + 1;
    }
    let mut city: usize = 1;
    while city < n
        invariant
            1 <= city <= n,
            n == attractions.len(),
            a == rows(attractions@),
            columns == k + 1,
            forall|c: int| 0 <= c < a.len() ==> #[trigger] a[c].len() == k,
            rows_total(a, n - 1) <= u32::MAX,
            n > 1 ==> k >= 1,
            previous@.len() == columns,
            forall|l: int| 0 <= l <= k ==> #[trigger] previous@[l] == best_days(a, city - 1, l),
        decreases n - city,
    {
        let itinerary = &attractions[city];
        proof {
            assert(itinerary@ == a[city as int]);
            lemma_total_grows(a, city as int, n - 1);
            lemma_total_grows(a, city - 1, city as int);
            lemma_total_grows(a, -1, city - 1);
            assert(prefix(a[city as int], 0) == 0);
            lemma_no_days(a, city as int);
        }
        let mut current: Vec<u32> = Vec::new();
        current.push(0);
        let mut current_value: u32 = itinerary[0];
        // the first attraction of this city against the previous cities
        let mut l: usize = 1;
        while l < columns
            invariant
                1 <= l <= columns,
                columns == k + 1,
                k >= 1,
                1 <= city < n,
                itinerary@ == a[city as int],
                forall|c: int| 0 <= c < a.len() ==> #[trigger] a[c].len() == k,
                a.len() == n,
                rows_total(a, city as int) <= u32::MAX,
                current_value == prefix(a[city as int], 1),
                previous@.len() == columns,
                forall|m: int| 0 <= m <= k ==> #[trigger] previous@[m] == best_days(a, city - 1, m),
                current@.len() == l,
                forall|m: int| 0 <= m < l ==> #[trigger] current@[m] == plan(a, city as int, m, if m < 1 { m } else { 1 }),
            decreases columns - l,
        {
            proof {
                lemma_plan_bounds(a, k as int, city - 1, l - 1, l - 1);
                lemma_prefix_bounds(a[city as int], 1, k as int);
                assert(plan(a, city as int, l as int, 0) == best_days(a, city - 1, l as int));
            }
            let with = current_value + previous[l - 1];
            let without = previous[l];
            current.push(if without < with { with } else { without });
            l = l + 1;
        }
        // the longer stays in this city, still against the previous cities
        let mut j: usize = 1;
        while j < itinerary.len()
            invariant
                1 <= j <= k,
                itinerary@.len() == k,
                columns == k + 1,
                1 <= city < n,
                itinerary@ == a[city as int],
                forall|c: int| 0 <= c < a.len() ==> #[trigger] a[c].len() == k,
                a.len() == n,
                rows_total(a, city as int) <= u32::MAX,
                current_value == prefix(a[city as int], j as int),
                previous@.len() == columns,
                forall|m: int| 0 <= m <= k ==> #[trigger] previous@[m] == best_days(a, city - 1, m),
                current@.len() == columns,
                forall|m: int| 0 <= m <= k ==> #[trigger] current@[m] == plan(a, city as int, m, if m < j { m } else { j as int }),
            decreases k - j,
        {
            proof {
                lemma_prefix_bounds(a[city as int], j + 1, k as int);
                lemma_total_grows(a, -1, city - 1);
                assert(prefix(a[city as int], j + 1) == prefix(a[city as int], j as int) + a[city as int][j as int]);
            }
            current_value = current_value + itinerary[j];
            let mut l: usize = 1;
            while l < columns
                invariant
                    1 <= l <= columns,
                    1 <= j < k,
                    columns == k + 1,
                    1 <= city < n,
                    forall|c: int| 0 <= c < a.len() ==> #[trigger] a[c].len() == k,
                    a.len() == n,
                    rows_total(a, city as int) <= u32::MAX,
                    current_value == prefix(a[city as int], j + 1),
                    previous@.len() == columns,
                    forall|m: int| 0 <= m <= k ==> #[trigger] previous@[m] == best_days(a, city - 1, m),
                    current@.len() == columns,
                    forall|m: int|
                        0 <= m < l ==> #[trigger] current@[m] == plan(a, city as int, m, if m < j + 1 { m } else { j + 1 }),
                    forall|m: int| l <= m <= k ==> #[trigger] current@[m] == plan(a, city as int, m, if m < j { m } else { j as int }),
                decreases columns - l,
            {
                if j < l {
                    proof {
                        lemma_prefix_bounds(a[city as int], j + 1, k as int);
                        lemma_total_grows(a, -1, city - 1);
                        lemma_plan_bounds(a, k as int, city - 1, l - (j + 1), l - (j + 1));
                        lemma_plan_bounds(a, k as int, city as int, l as int, j as int);
                    }
                    let with = current_value + previous[l - (j + 1)];
                    let without = current[l];
                    current.set(l, if without < with { with } else { without });
                }
                l = l + 1;
            }
            j = j + 1;
        }
        previous = current;
        city = city + 1;
    }
    previous[k]
}

proof fn lemma_total_grows(a: Seq<Seq<u32>>, i: int, j: int)
    requires
        -1 <= i <= j,
    ensures
        rows_total(a, i) <= rows_total(a, j),
    decreases j - i,
{
    if i < j {
        lemma_total_grows(a, i, j - 1);
        lemma_prefix_bounds(a[j], 0, 0);
        if a[j].len() > 0 {
            lemma_prefix_bounds(a[j], 0, a[j].len() as int);
        }
    }
}


/// Topic `a` can come before topic `b`: both its beauty and its difficulty
/// are lower.
pub open spec fn before(a: (u32, u32), b: (u32, u32)) -> bool {
    a.0 < b.0 && a.1 < b.1
}

/// `c` is a sequence of topics of `t`, each before the next.
pub open spec fn is_chain(t: Seq<(u32, u32)>, c: Seq<(u32, u32)>) -> bool {
    &&& forall|i: int| 0 <= i < c.len() ==> t.contains(#[trigger] c[i])
    &&& forall|i: int| 0 <= i < c.len() - 1 ==> #[trigger] before(c[i], c[i + 1])
}

/// `s` is ordered by beauty.
pub open spec fn by_beauty(s: Seq<(u32, u32)>) -> bool {
    forall|i: int, j: int| 0 <= i <= j < s.len() ==> #[trigger] s[i].0 <= #[trigger] s[j].0
}

/// Relies on `slice::sort_by`, with a comparison of the first components:
/// the result holds the same topics, ordered by beauty.
#[verifier::external_body]
fn sort_by_beauty(topics: &mut Vec<(u32, u32)>)
    ensures
        final(topics)@.to_multiset() == old(topics)@.to_multiset(),
        by_beauty(final(topics)@),
{
    topics.sort_by(|a, b| a.0.cmp(&b.0));
}

/// In a chain, every topic is before every later one.
proof fn lemma_chain_order(t: Seq<(u32, u32)>, c: Seq<(u32, u32)>)
    requires
        is_chain(t, c),
    ensures
        forall|a: int, b: int| 0 <= a < b < c.len() ==> #[trigger] before(c[a], c[b]),
{
    assert forall|a: int, b: int| 0 <= a < b < c.len() implies #[trigger] before(c[a], c[b]) by {
        lemma_chain_step(t, c, a, b);
    }
}

proof fn lemma_chain_step(t: Seq<(u32, u32)>, c: Seq<(u32, u32)>, a: int, b: int)
    requires
        is_chain(t, c),
        0 <= a < b < c.len(),
    ensures
        before(c[a], c[b]),
    decreases b - a,
{
    assert(before(c[b - 1], c[(b - 1) + 1]));
    if a < b - 1 {
        lemma_chain_step(t, c, a, b - 1);
    }
}

/// `tails` strictly increases.
pub open spec fn increasing(tails: Seq<u32>) -> bool {
    forall|a: int, b: int| 0 <= a < b < tails.len() ==> #[trigger] tails[a] < #[trigger] tails[b]
}

/// For every chain of `p`, `tails` is at least as long, and the entry for
/// the chain's length is at most the chain's last difficulty.
pub open spec fn tails_bound(p: Seq<(u32, u32)>, tails: Seq<u32>) -> bool {
    forall|c: Seq<(u32, u32)>|
        #[trigger] is_chain(p, c) && c.len() >= 1 ==> c.len() <= tails.len() && tails[c.len() - 1] <= c.last().1
}

/// `place` is the first index of `tails` whose entry is at least `d`.
pub open spec fn lower_bound_of(tails: Seq<u32>, d: u32, place: int) -> bool {
    &&& 0 <= place <= tails.len()
    &&& forall|k: int| 0 <= k < place ==> #[trigger] tails[k] < d
    &&& forall|k: int| place <= k < tails.len() ==> #[trigger] tails[k] >= d
}

/// The first index of the increasing `tails` whose entry is at least `d`.
fn lower_bound(tails: &Vec<u32>, d: u32) -> (r: usize)
    requires
        increasing(tails@),
    ensures
        lower_bound_of(tails@, d, r as int),
{
    let mut left: usize = 0;
    let mut right: usize = tails.len();
    while left < right
        invariant
            left <= right <= tails.len(),
            increasing(tails@),
            forall|k: int| 0 <= k < left ==> #[trigger] tails@[k] < d,
            forall|k: int| right <= k < tails.len() ==> #[trigger] tails@[k] >= d,
        decreases right - left,
    {
        let mid = left + (right - left) / 2;
        if tails[mid] < d {
            left = mid + 1;
        } else {
            right = mid;
        }
    }
    left
}

/// A topic of `s[..i]` is a topic of `s[..j]` for `i <= j`.
proof fn lemma_prefix_contains(s: Seq<(u32, u32)>, i: int, j: int, v: (u32, u32))
    requires
        0 <= i <= j <= s.len(),
        s.subrange(0, i).contains(v),
    ensures
        s.subrange(0, j).contains(v),
        exists|x: int| 0 <= x < i && s[x] == v,
{
    let k = choose|k: int| 0 <= k < i && s.subrange(0, i)[k] == v;
    assert(s.subrange(0, j)[k] == v);
}

/// The bound of the tails carries over from the topics before a group of
/// equal beauty to the topics up to its end, once each topic of the group
/// has lowered the entry at its place.
proof fn lemma_group_step(
    s: Seq<(u32, u32)>,
    i: int,
    g_end: int,
    before_group: Seq<u32>,
    tails: Seq<u32>,
    places: Seq<usize>,
)
    requires
        by_beauty(s),
        0 <= i < g_end <= s.len(),
        forall|x: int| i <= x < g_end ==> #[trigger] s[x].0 == s[i].0,
        i > 0 ==> s[i - 1].0 < s[i].0,
        tails_bound(s.subrange(0, i), before_group),
        increasing(before_group),
        increasing(tails),
        before_group.len() <= tails.len(),
        forall|k: int| 0 <= k < before_group.len() ==> #[trigger] tails[k] <= before_group[k],
        places.len() == g_end - i,
        forall|y: int| i <= y < g_end ==> lower_bound_of(before_group, s[y].1, #[trigger] places[y - i] as int),
        forall|y: int| i <= y < g_end ==> #[trigger] places[y - i] < tails.len() && tails[places[y - i] as int] <= s[y].1,
    ensures
        tails_bound(s.subrange(0, g_end), tails),
{
    let p = s.subrange(0, i);
    let q = s.subrange(0, g_end);
    let b = s[i].0;
    assert forall|c: Seq<(u32, u32)>| #[trigger] is_chain(q, c) && c.len() >= 1 implies c.len() <= tails.len()
        && tails[c.len() - 1] <= c.last().1 by {
        let v = c.last();
        assert(q.contains(c[c.len() - 1]));
        lemma_prefix_contains(s, g_end, g_end, v);
        let xv = choose|x: int| 0 <= x < g_end && s[x] == v;
        lemma_chain_order(q, c);
        let d = c.drop_last();
        // every topic before the last one lies before the group
        assert forall|k: int| 0 <= k < d.len() implies p.contains(#[trigger] d[k]) by {
            assert(d[k] == c[k]);
            assert(before(c[k], c[c.len() - 1]));
            assert(q.contains(c[k]));
            lemma_prefix_contains(s, g_end, g_end, c[k]);
            let xk = choose|x: int| 0 <= x < g_end && s[x] == c[k];
            if xk >= i {
                if xv >= i {
                    assert(s[xv].0 == b);
                } else {
                    assert(s[xv].0 <= s[xk].0);
                }
            }
            assert(p[xk] == s[xk]);
        }
        assert(is_chain(p, d)) by {
            assert forall|k: int| 0 <= k < d.len() - 1 implies #[trigger] before(d[k], d[k + 1]) by {
                assert(before(c[k], c[k + 1]));
            }
        }
        if xv < i {
            assert(is_chain(p, c)) by {
                assert forall|k: int| 0 <= k < c.len() implies p.contains(#[trigger] c[k]) by {
                    if k < d.len() {
                        assert(d[k] == c[k]);
                    } else {
                        assert(p[xv] == s[xv]);
                    }
                }
            }
        } else {
            let place = places[xv - i] as int;
            if d.len() >= 1 {
                assert(d.last() == c[c.len() - 2]);
                let m = c.len() - 2;
                assert(before(c[m], c[m + 1]));
                if place <= d.len() - 1 {
                    assert(before_group[d.len() - 1] >= s[xv].1);
                }
                if d.len() < place {
                    assert(tails[d.len() as int] < tails[place]);
                }
            } else if place > 0 {
                assert(tails[0] < tails[place]);
            }
        }
    }
}

/// Length of the longest sequence of topics in which both beauty and
/// difficulty strictly increase.
pub fn find_maximum_topics(mut topics: Vec<(u32, u32)>) -> (r: u32)
    requires
        1 <= topics.len() <= u32::MAX,
    ensures
        exists|c: Seq<(u32, u32)>| is_chain(topics@, c) && c.len() == r,
        forall|c: Seq<(u32, u32)>| is_chain(topics@, c) ==> c.len() <= r,
{
    let ghost input = topics@;
    // Sort by beauty
    sort_by_beauty(&mut topics);
    let ghost s = topics@;
    proof {
        input.to_multiset_ensures();
        s.to_multiset_ensures();
        assert forall|x: (u32, u32)| s.contains(x) <==> input.contains(x) by {
            assert(s.to_multiset().count(x) == input.to_multiset().count(x));
        }
        assert(s.subrange(0, 0).len() == 0);
        assert forall|c: Seq<(u32, u32)>| #[trigger] is_chain(s.subrange(0, 0), c) && c.len() >= 1 implies false by {
            assert(s.subrange(0, 0).contains(c[0]));
        }
    }
    let n = topics.len();
    // bst[k]: the smallest difficulty that ends a chain of k + 1 topics seen so far
    let mut bst: Vec<u32> = Vec::new();
    let ghost mut witness: Seq<Seq<(u32, u32)>> = Seq::empty();
    let mut i: usize = 0;
    while i < n
        invariant
            i <= n,
            n == s.len(),
            topics@ == s,
            by_beauty(s),
            0 < i < n ==> s[i - 1].0 < s[i as int].0,
            increasing(bst@),
            tails_bound(s.subrange(0, i as int), bst@),
            bst@.len() <= i,
            i > 0 ==> bst@.len() >= 1,
            witness.len() == bst@.len(),
            forall|k: int|
                0 <= k < bst@.len() ==> is_chain(s.subrange(0, i as int), #[trigger] witness[k]) && witness[k].len()
                    == k + 1 && witness[k].last().1 == bst@[k],
        decreases n - i,
    {
        // the group of topics that share this beauty
        let beauty = topics[i].0;
        let mut g_end: usize = i + 1;
        while g_end < n && topics[g_end].0 == beauty
            invariant
                i < g_end <= n,
                n == s.len(),
                topics@ == s,
                beauty == s[i as int].0,
                forall|x: int| i <= x < g_end ==> #[trigger] s[x].0 == beauty,
            decreases n - g_end,
        {
            g_end = g_end + 1;
        }
        proof {
            if g_end < n {
                assert(s[g_end - 1].0 <= s[g_end as int].0);
            }
        }
        // where each topic of the group goes among the tails before it
        let mut places: Vec<usize> = Vec::new();
        let mut x: usize = i;
        while x < g_end
            invariant
                i <= x <= g_end <= n,
                n == s.len(),
                topics@ == s,
                increasing(bst@),
                places@.len() == x - i,
                forall|y: int| i <= y < x ==> lower_bound_of(bst@, s[y].1, #[trigger] places@[y - i] as int),
            decreases g_end - x,
        {
            places.push(lower_bound(&bst, topics[x].1));
            x = x + 1;
        }
        let ghost before_group = bst@;
        let ghost old_witness = witness;
        let old_len = bst.len();
        let mut x: usize = i;
        while x < g_end
            invariant
                i <= x <= g_end <= n,
                n == s.len(),
                topics@ == s,
                by_beauty(s),
                forall|y: int| i <= y < g_end ==> #[trigger] s[y].0 == beauty,
                0 < i ==> s[i - 1].0 < beauty,
                places@.len() == g_end - i,
                forall|y: int| i <= y < g_end ==> lower_bound_of(before_group, s[y].1, #[trigger] places@[y - i] as int),
                old_len == before_group.len(),
                old_len <= i,
                increasing(before_group),
                bst@.len() == old_len || bst@.len() == old_len + 1,
                forall|k: int| 0 < k < bst@.len() ==> before_group[k - 1] < #[trigger] bst@[k],
                forall|k: int| 0 <= k < old_len ==> #[trigger] bst@[k] <= before_group[k],
                forall|y: int| i <= y < x ==> #[trigger] places@[y - i] < bst@.len() && bst@[places@[y - i] as int] <= s[y].1,
                old_witness.len() == old_len,
                forall|k: int|
                    0 <= k < old_len ==> is_chain(s.subrange(0, i as int), #[trigger] old_witness[k])
                        && old_witness[k].len() == k + 1 && old_witness[k].last().1 == before_group[k],
                witness.len() == bst@.len(),
                forall|k: int|
                    0 <= k < bst@.len() ==> is_chain(s.subrange(0, g_end as int), #[trigger] witness[k])
                        && witness[k].len() == k + 1 && witness[k].last().1 == bst@[k],
            decreases g_end - x,
        {
            let place = places[x - i];
            let d = topics[x].1;
            if place == bst.len() || d < bst[place] {
                proof {
                    let q = s.subrange(0, g_end as int);
                    let chain = if place == 0 {
                        seq![s[x as int]]
                    } else {
                        old_witness[place - 1].push(s[x as int])
                    };
                    assert(q[x as int] == s[x as int]);
                    assert(q.contains(s[x as int]));
                    assert forall|k: int| 0 <= k < chain.len() implies q.contains(#[trigger] chain[k]) by {
                        if k < chain.len() - 1 {
                            let w = old_witness[place - 1];
                            assert(chain[k] == w[k]);
                            assert(s.subrange(0, i as int).contains(w[k]));
                            lemma_prefix_contains(s, i as int, g_end as int, w[k]);
                        }
                    }
                    assert forall|k: int| 0 <= k < chain.len() - 1 implies #[trigger] before(chain[k], chain[k + 1]) by {
                        let w = old_witness[place - 1];
                        if k < chain.len() - 2 {
                            assert(chain[k] == w[k] && chain[k + 1] == w[k + 1]);
                            assert(before(w[k], w[k + 1]));
                        } else {
                            assert(chain[k] == w.last());
                            assert(s.subrange(0, i as int).contains(w[w.len() - 1]));
                            lemma_prefix_contains(s, i as int, i as int, w.last());
                            let xw = choose|y: int| 0 <= y < i && s[y] == w.last();
                            assert(s[xw].0 <= s[i - 1].0);
                            assert(before_group[place - 1] < d);
                        }
                    }
                    if place == bst.len() {
                        witness = witness.push(chain);
                    } else {
                        witness = witness.update(place as int, chain);
                    }
                }
                if place == bst.len() {
                    bst.push(d);
                } else {
                    bst.set(place, d);
                }
            }
            x = x + 1;
        }
        proof {
            assert forall|a: int, b: int| 0 <= a < b < bst@.len() implies #[trigger] bst@[a] < #[trigger] bst@[b] by {
                assert(bst@[a] <= before_group[a]);
                if a < b - 1 {
                    assert(before_group[a] < before_group[b - 1]);
                }
            }
            lemma_group_step(s, i as int, g_end as int, before_group, bst@, places@);
            let first = i as int;
            assert(places@[first - i] < bst@.len());
        }
        i = g_end;
    }
    proof {
        let c = witness[bst@.len() - 1];
        assert(s.subrange(0, n as int) =~= s);
        assert(is_chain(input, c)) by {
            assert forall|k: int| 0 <= k < c.len() implies input.contains(#[trigger] c[k]) by {
                assert(s.contains(c[k]));
            }
        }
        assert forall|c: Seq<(u32, u32)>| is_chain(input, c) implies c.len() <= bst@.len() by {
            if c.len() >= 1 {
                assert(is_chain(s, c)) by {
                    assert forall|k: int| 0 <= k < c.len() implies s.contains(#[trigger] c[k]) by {
                        assert(input.contains(c[k]));
                    }
                }
            }
        }
    }
    bst.len() as u32
}

} // verus!
