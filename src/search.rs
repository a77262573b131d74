//! Counting how many whitespace-delimited tokens of a text equal a word. The
//! tokens are split into contiguous partitions sized by a parallelism hint;
//! each partition is scanned on its own, so that one worker can take each, and
//! the partial counts are added into the total.
use vstd::prelude::*;

verus! {

/// The tokens of a text: its maximal runs of non-whitespace characters, in order.
pub uninterp spec fn words_of(s: Seq<char>) -> Seq<Seq<char>>;

/// How many items of `ws` equal `w`.
pub open spec fn count_matches(ws: Seq<Seq<char>>, w: Seq<char>) -> nat
    decreases ws.len(),
{
    if ws.len() == 0 {
        0
    } else {
        count_matches(ws.drop_last(), w) + if ws.last() == w {
            1nat
        } else {
            0nat
        }
    }
}

/// The characters of each string of `v`.
pub open spec fn texts(v: Seq<String>) -> Seq<Seq<char>> {
    v.map_values(|t: String| t@)
}

/// The number of partitions requested for a parallelism hint: a hint of zero
/// means the hint could not be had, and one partition is asked for.
pub open spec fn workers(p: nat) -> nat {
    if p == 0 {
        1
    } else {
        p
    }
}

/// `ceil(a / b)`, for a positive `b`.
pub open spec fn ceil_div(a: nat, b: nat) -> nat {
    a / b + if a % b == 0 {
        0nat
    } else {
        1nat
    }
}

/// Tokens per partition: `ceil(n / workers(p))`.
pub open spec fn chunk_len(n: nat, p: nat) -> nat {
    ceil_div(n, workers(p))
}

/// The number of partitions actually made: `ceil(n / chunk_len(n, p))`, and
/// none for an empty sequence.
pub open spec fn part_count(n: nat, p: nat) -> nat {
    if n == 0 {
        0
    } else {
        ceil_div(n, chunk_len(n, p))
    }
}

/// Partition `i` of `n` tokens: the half-open range `[i * c, min((i + 1) * c, n))`.
pub open spec fn part(n: nat, p: nat, i: nat) -> (nat, nat) {
    let c = chunk_len(n, p);
    (i * c, if (i + 1) * c < n {
        (i + 1) * c
    } else {
        n
    })
}

/// The sum, over the ranges in `parts`, of the matches of `w` in that range of `ws`.
pub open spec fn sum_parts(ws: Seq<Seq<char>>, w: Seq<char>, parts: Seq<(nat, nat)>) -> nat
    decreases parts.len(),
{
    if parts.len() == 0 {
        0
    } else {
        sum_parts(ws, w, parts.drop_last()) + count_matches(
            ws.subrange(parts.last().0 as int, parts.last().1 as int),
            w,
        )
    }
}

/// The partition that holds token `k` of `n`.
pub open spec fn part_index(n: nat, p: nat, k: nat) -> nat {
    k / chunk_len(n, p)
}

/// The whole partition plan for `n` tokens and parallelism hint `p`.
pub open spec fn plan(n: nat, p: nat) -> Seq<(nat, nat)> {
    Seq::new(part_count(n, p), |i: int| part(n, p, i as nat))
}

} // verus!
verus! {

/// Relies on `str::split_whitespace`: yields the tokens of the text in order;
/// a text without characters has none.
#[verifier::external_body]
fn split_words(s: &str) -> (r: Vec<String>)
    ensures
        texts(r@) == words_of(s@),
        s@.len() == 0 ==> r@.len() == 0,
{
    s.split_whitespace().map(|t| t.to_string()).collect()
}

} // verus!

verus! {

proof fn lemma_count_split(ws: Seq<Seq<char>>, w: Seq<char>, k: int)
    requires
        0 <= k <= ws.len(),
    ensures
        count_matches(ws, w) == count_matches(ws.subrange(0, k), w) + count_matches(
            ws.subrange(k, ws.len() as int),
            w,
        ),
    decreases ws.len(),
{
    if k == ws.len() {
        assert(ws.subrange(0, k) =~= ws);
        assert(ws.subrange(k, ws.len() as int) =~= Seq::<Seq<char>>::empty());
    } else {
        let dl = ws.drop_last();
        lemma_count_split(dl, w, k);
        assert(dl.subrange(0, k) =~= ws.subrange(0, k));
        let tail = ws.subrange(k, ws.len() as int);
        assert(tail.drop_last() =~= dl.subrange(k, dl.len() as int));
        assert(tail.last() == ws.last());
    }
}

proof fn lemma_count_le_len(ws: Seq<Seq<char>>, w: Seq<char>)
    ensures
        count_matches(ws, w) <= ws.len(),
    decreases ws.len(),
{
    if ws.len() > 0 {
        lemma_count_le_len(ws.drop_last(), w);
    }
}

/// The tokens of `content`, in order.
pub fn tokenize(content: &str) -> (r: Vec<String>)
    ensures
        texts(r@) == words_of(content@),
{
    split_words(content)
}

/// Counts the tokens in `tokens[from..to]` that equal `word`: the scan that one
/// worker makes of its partition.
pub fn count_range(tokens: &Vec<String>, word: &String, from: usize, to: usize) -> (r: usize)
    requires
        from <= to <= tokens@.len(),
    ensures
        r == count_matches(texts(tokens@).subrange(from as int, to as int), word@),
{
    let ghost ws = texts(tokens@);
    let mut r: usize = 0;
    let mut i: usize = from;
    while i < to
        invariant
            from <= i <= to <= tokens@.len(),
            ws == texts(tokens@),
            r == count_matches(ws.subrange(from as int, i as int), word@),
            r <= i - from,
        decreases to - i,
    {
        proof {
            let next = ws.subrange(from as int, i + 1);
            assert(next.drop_last() =~= ws.subrange(from as int, i as int));
            assert(next.last() == tokens@[i as int]@);
        }
        if tokens[i] == *word {
            r = r + 1;
        }
        i = i + 1;
    }
    r
}

proof fn lemma_ceil_div_unique(n: nat, c: nat, k: nat)
    requires
        c > 0,
        n > 0,
        k > 0,
        (k - 1) * c < n,
        n <= k * c,
    ensures
        k == ceil_div(n, c),
{
    let q = n / c;
    let m = n % c;
    assert(n == c * q + m && m < c) by (nonlinear_arith)
        requires
            c > 0,
            q == n / c,
            m == n % c,
    ;
    assert(k == ceil_div(n, c)) by (nonlinear_arith)
        requires
            c > 0,
            n == c * q + m,
            0 <= m < c,
            (k - 1) * c < n,
            n <= k * c,
            ceil_div(n, c) == q + if m == 0 {
                0nat
            } else {
                1nat
            },
    ;
}

proof fn lemma_chunk_bounds(n: nat, p: nat)
    requires
        n > 0,
    ensures
        1 <= chunk_len(n, p) <= n,
        n <= chunk_len(n, p) * workers(p),
{
    let w = workers(p);
    let q = n / w;
    let m = n % w;
    assert(n == w * q + m && m < w) by (nonlinear_arith)
        requires
            w > 0,
            q == n / w,
            m == n % w,
    ;
    assert(q <= n) by (nonlinear_arith)
        requires
            w >= 1,
            n == w * q + m,
            0 <= m,
    ;
    assert(q < n || m == 0) by (nonlinear_arith)
        requires
            w >= 1,
            n == w * q + m,
            0 <= m,
            n > 0,
    ;
    assert(n <= chunk_len(n, p) * w) by (nonlinear_arith)
        requires
            n == w * q + m,
            0 <= m < w,
            chunk_len(n, p) == q + if m == 0 {
                0nat
            } else {
                1nat
            },
    ;
}

/// The partition plan for `n` tokens under parallelism hint `p` (zero when
/// the hint could not be had): `ceil(n / c)` contiguous ranges of
/// `c = ceil(n / p)` tokens, the last one possibly shorter.
pub fn partition_plan(n: usize, p: usize) -> (r: Vec<(usize, usize)>)
    ensures
        r@.len() == plan(n as nat, p as nat).len(),
        forall|i: int|
            0 <= i < r@.len() ==> (r@[i].0 as nat, r@[i].1 as nat) == #[trigger] plan(
                n as nat,
                p as nat,
            )[i],
{
    let mut r: Vec<(usize, usize)> = Vec::new();
    if n == 0 {
        return r;
    }
    let w: usize = if p == 0 {
        1
    } else {
        p
    };
    proof {
        lemma_chunk_bounds(n as nat, p as nat);
    }
    assert(w as nat == workers(p as nat));
    let c: usize = n / w + if n % w == 0 {
        0
    } else {
        1
    };
    assert(c == chunk_len(n as nat, p as nat));
    let mut from: usize = 0;
    assert(r@.len() * c == 0);
    while from < n
        invariant
            1 <= c <= n,
            c == chunk_len(n as nat, p as nat),
            from == if r@.len() * c < n {
                r@.len() * c
            } else {
                n as int
            },
            r@.len() > 0 ==> (r@.len() - 1) * c < n,
            forall|j: int|
                0 <= j < r@.len() ==> (r@[j].0 as nat, r@[j].1 as nat) == #[trigger] part(
                    n as nat,
                    p as nat,
                    j as nat,
                ),
        decreases n - from,
    {
        let to: usize = if n - from > c {
            from + c
        } else {
            n
        };
        assert(from == r@.len() * c);
        assert((r@.len() + 1) * c == r@.len() * c + c) by (nonlinear_arith);
        r.push((from, to));
        from = to;
    }
    proof {
        lemma_ceil_div_unique(n as nat, c as nat, r@.len() as nat);
        assert(r@.len() == plan(n as nat, p as nat).len());
    }
    r
}

proof fn lemma_ceil_div_bounds(n: nat, c: nat)
    requires
        c > 0,
        n > 0,
    ensures
        ceil_div(n, c) > 0,
        (ceil_div(n, c) - 1) * c < n,
        n <= ceil_div(n, c) * c,
{
    let q = n / c;
    let m = n % c;
    let k = ceil_div(n, c);
    assert(n == c * q + m && m < c) by (nonlinear_arith)
        requires
            c > 0,
            q == n / c,
            m == n % c,
    ;
    assert(k > 0 && (k - 1) * c < n && n <= k * c) by (nonlinear_arith)
        requires
            c > 0,
            n > 0,
            n == c * q + m,
            0 <= m < c,
            k == q + if m == 0 {
                0nat
            } else {
                1nat
            },
    ;
}

/// The partitions of `n` tokens cover `[0, n)` exactly: none is empty, the
/// first starts at 0, each starts where the one before it ends, the last ends
/// at `n`; so every index lies in one partition and in no other.
pub proof fn lemma_plan_covers(n: nat, p: nat)
    ensures
        n == 0 <==> plan(n, p).len() == 0,
        n > 0 ==> plan(n, p)[0].0 == 0 && plan(n, p).last().1 == n,
        forall|i: int| 0 <= i < plan(n, p).len() ==> #[trigger] plan(n, p)[i].0 < plan(n, p)[i].1,
        forall|i: int|
            0 <= i < plan(n, p).len() - 1 ==> #[trigger] plan(n, p)[i].1 == plan(n, p)[i + 1].0,
        forall|i: int, j: int|
            0 <= i < j < plan(n, p).len() ==> #[trigger] plan(n, p)[i].1 <= #[trigger] plan(
                n,
                p,
            )[j].0,
        forall|k: nat|
            k < n ==> {
                let i = #[trigger] part_index(n, p, k) as int;
                0 <= i < plan(n, p).len() && plan(n, p)[i].0 <= k < plan(n, p)[i].1
            },
{
    if n > 0 {
        lemma_chunk_bounds(n, p);
        let c = chunk_len(n, p);
        let len = part_count(n, p);
        lemma_ceil_div_bounds(n, c);
        assert forall|i: int| 0 <= i < len implies i * c < n && i * c < #[trigger] plan(
            n,
            p,
        )[i].1 by {
            assert(i * c <= (len - 1) * c) by (nonlinear_arith)
                requires
                    0 <= i <= len - 1,
                    c > 0,
            ;
            assert((i + 1) * c == i * c + c) by (nonlinear_arith);
        }
        assert forall|i: int| 0 <= i < len - 1 implies #[trigger] plan(n, p)[i].1 == plan(n, p)[i
            + 1].0 by {
            assert((i + 1) * c <= (len - 1) * c) by (nonlinear_arith)
                requires
                    0 <= i + 1 <= len - 1,
                    c > 0,
            ;
        }
        assert forall|i: int, j: int| 0 <= i < j < len implies #[trigger] plan(n, p)[i].1
            <= #[trigger] plan(n, p)[j].0 by {
            assert((i + 1) * c <= j * c) by (nonlinear_arith)
                requires
                    0 <= i < j,
                    c > 0,
            ;
        }
        assert(plan(n, p).last().1 == n) by {
            assert((len - 1 + 1) * c == len * c);
        }
        assert forall|k: nat| k < n implies {
            let i = #[trigger] part_index(n, p, k) as int;
            0 <= i < plan(n, p).len() && plan(n, p)[i].0 <= k < plan(n, p)[i].1
        } by {
            let i = (k / c) as int;
            assert(i * c <= k < i * c + c && 0 <= i) by (nonlinear_arith)
                requires
                    c > 0,
                    i == k / c,
            ;
            assert(i < len) by (nonlinear_arith)
                requires
                    c > 0,
                    i * c <= k,
                    k < n,
                    n <= len * c,
            ;
            assert((i + 1) * c == i * c + c) by (nonlinear_arith);
            assert(plan(n, p)[i].0 <= k < plan(n, p)[i].1);
        }
    }
}

/// No more partitions are made than the parallelism hint asks for, nor more
/// than there are tokens; an empty sequence gets none.
pub proof fn lemma_plan_size(n: nat, p: nat)
    ensures
        plan(n, p).len() <= workers(p),
        plan(n, p).len() <= n,
        n == 0 ==> plan(n, p).len() == 0,
{
    if n > 0 {
        lemma_chunk_bounds(n, p);
        let c = chunk_len(n, p);
        let len = part_count(n, p);
        let w = workers(p);
        lemma_ceil_div_bounds(n, c);
        assert(len <= w && len <= n) by (nonlinear_arith)
            requires
                c >= 1,
                w >= 1,
                len >= 1,
                (len - 1) * c < n,
                n <= c * w,
        ;
    }
}

/// The end of the first `m` partitions of `n` tokens.
pub open spec fn covered(n: nat, p: nat, m: int) -> nat {
    if m == 0 {
        0
    } else {
        plan(n, p)[m - 1].1
    }
}

proof fn lemma_prefix_sum(ws: Seq<Seq<char>>, w: Seq<char>, p: nat, m: int)
    requires
        0 <= m <= plan(ws.len(), p).len(),
    ensures
        covered(ws.len(), p, m) <= ws.len(),
        sum_parts(ws, w, plan(ws.len(), p).take(m)) == count_matches(
            ws.subrange(0, covered(ws.len(), p, m) as int),
            w,
        ),
    decreases m,
{
    let n = ws.len();
    lemma_plan_covers(n, p);
    if m == 0 {
        assert(ws.subrange(0, 0) =~= Seq::<Seq<char>>::empty());
    } else {
        lemma_prefix_sum(ws, w, p, m - 1);
        let parts = plan(n, p).take(m);
        assert(parts.drop_last() =~= plan(n, p).take(m - 1));
        let (from, to) = plan(n, p)[m - 1];
        assert(covered(n, p, m - 1) == from);
        assert(to <= n) by {
            if m < plan(n, p).len() {
                assert(plan(n, p)[m - 1].1 <= plan(n, p)[m].0);
            }
        }
        let upto = ws.subrange(0, to as int);
        lemma_count_split(upto, w, from as int);
        assert(upto.subrange(0, from as int) =~= ws.subrange(0, from as int));
        assert(upto.subrange(from as int, to as int) =~= ws.subrange(from as int, to as int));
    }
}

/// Counting each partition on its own and adding the counts gives the count
/// over the whole sequence, whatever the parallelism hint.
pub proof fn lemma_partitioned_count(ws: Seq<Seq<char>>, w: Seq<char>, p: nat)
    ensures
        sum_parts(ws, w, plan(ws.len(), p)) == count_matches(ws, w),
{
    let n = ws.len();
    let len = plan(n, p).len() as int;
    lemma_prefix_sum(ws, w, p, len);
    lemma_plan_covers(n, p);
    assert(plan(n, p).take(len) =~= plan(n, p));
    assert(ws.subrange(0, covered(n, p, len) as int) =~= ws);
}

/// Two parallelism hints give the same total: the sum of the partition
/// counts does not depend on how the tokens were partitioned.
pub proof fn lemma_parallelism_irrelevant(ws: Seq<Seq<char>>, w: Seq<char>, p: nat, q: nat)
    ensures
        sum_parts(ws, w, plan(ws.len(), p)) == sum_parts(ws, w, plan(ws.len(), q)),
{
    lemma_partitioned_count(ws, w, p);
    lemma_partitioned_count(ws, w, q);
}

/// Counts the items of `tokens` that equal `word`: the tokens are split by
/// `partition_plan` under parallelism hint `parallelism`, each partition is
/// scanned on its own, and the partial counts are added.
pub fn count_tokens(tokens: &Vec<String>, word: &String, parallelism: usize) -> (r: usize)
    ensures
        r == count_matches(texts(tokens@), word@),
{
    let ghost ws = texts(tokens@);
    let n = tokens.len();
    let parts = partition_plan(n, parallelism);
    let ghost pl = plan(n as nat, parallelism as nat);
    let mut total: usize = 0;
    let mut i: usize = 0;
    while i < parts.len()
        invariant
            ws == texts(tokens@),
            ws.len() == n,
            n == tokens@.len(),
            pl == plan(n as nat, parallelism as nat),
            parts@.len() == pl.len(),
            forall|j: int|
                0 <= j < parts@.len() ==> (parts@[j].0 as nat, parts@[j].1 as nat) == #[trigger] pl[j],
            0 <= i <= parts@.len(),
            total == sum_parts(ws, word@, pl.take(i as int)),
            total <= covered(n as nat, parallelism as nat, i as int) <= n,
        decreases parts.len() - i,
    {
        let (from, to) = parts[i];
        proof {
            lemma_plan_covers(n as nat, parallelism as nat);
            lemma_prefix_sum(ws, word@, parallelism as nat, i as int);
            lemma_prefix_sum(ws, word@, parallelism as nat, i + 1);
            lemma_count_le_len(ws.subrange(0, to as int), word@);
            assert(pl.take(i + 1).drop_last() =~= pl.take(i as int));
            assert(pl[i as int].0 < pl[i as int].1);
        }
        let k = count_range(tokens, word, from, to);
        total = total + k;
        i = i + 1;
    }
    proof {
        lemma_partitioned_count(ws, word@, parallelism as nat);
        assert(pl.take(pl.len() as int) =~= pl);
    }
    total
}

/// Counts the tokens of `content` that equal `word`, with the work split as
/// `count_tokens` splits it under parallelism hint `parallelism`.
pub fn find_occurrence(content: String, word: String, parallelism: usize) -> (r: usize)
    ensures
        r == count_matches(words_of(content@), word@),
{
    let tokens = tokenize(content.as_str());
    count_tokens(&tokens, &word, parallelism)
}

} // verus!
