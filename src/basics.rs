use vstd::prelude::*;
use vstd::std_specs::cmp::PartialEqSpec;
use vstd::string::StrSliceExecFns;

verus! {

/// Sum `1 + 2 + ... + n` of a non-negative `n`.
pub open spec fn triangle(n: int) -> int {
    n * (n + 1) / 2
}

proof fn lemma_triangle_step(i: int)
    requires
        i >= 0,
    ensures
        triangle(i + 1) == triangle(i) + i + 1,
        triangle(i) >= 0,
{
    assert((i + 1) * (i + 2) == i * (i + 1) + 2 * (i + 1)) by (nonlinear_arith);
    assert(i * (i + 1) >= 0) by (nonlinear_arith)
        requires
            i >= 0,
    ;
}

proof fn lemma_triangle_monotonic(i: int, n: int)
    requires
        0 <= i <= n,
    ensures
        triangle(i) <= triangle(n),
    decreases n - i,
{
    if i < n {
        lemma_triangle_monotonic(i + 1, n);
        lemma_triangle_step(i);
    }
}

/// Returns `1 + 2 + ... + n`, or -1 when `n` is negative.
pub fn gauss(n: i32) -> (r: i32)
    requires
        n < 0 || triangle(n as int) <= i32::MAX,
    ensures
        n < 0 ==> r == -1,
        n >= 0 ==> r == triangle(n as int),
{
    if n < 0 {
        return -1;
    }
    let mut sum: i32 = 0;
    let mut i: i32 = 0;
    while i < n
        invariant
            0 <= i <= n,
            triangle(n as int) <= i32::MAX,
            sum == triangle(i as int),
        decreases n - i,
    {
        proof {
            lemma_triangle_step(i as int);
            lemma_triangle_monotonic(i + 1, n as int);
        }
        i = i + 1;
        sum = sum + i;
    }
    sum
}

/// Number of elements of `s` within `[lo, hi]`.
pub open spec fn count_in_range(s: Seq<i32>, lo: i32, hi: i32) -> nat
    decreases s.len(),
{
    if s.len() == 0 {
        0
    } else {
        count_in_range(s.drop_last(), lo, hi) + if lo <= s.last() <= hi {
            1nat
        } else {
            0nat
        }
    }
}

proof fn lemma_count_in_range_le(s: Seq<i32>, lo: i32, hi: i32)
    ensures
        count_in_range(s, lo, hi) <= s.len(),
    decreases s.len(),
{
    if s.len() > 0 {
        lemma_count_in_range_le(s.drop_last(), lo, hi);
    }
}

/// Returns how many elements of `ls` lie in the range `[s, e]`.
pub fn in_range(ls: &[i32], s: i32, e: i32) -> (r: i32)
    requires
        ls@.len() <= i32::MAX,
    ensures
        r == count_in_range(ls@, s, e),
{
    let mut count: i32 = 0;
    let mut k: usize = 0;
    while k < ls.len()
        invariant
            k <= ls@.len(),
            ls@.len() <= i32::MAX,
            count == count_in_range(ls@.subrange(0, k as int), s, e),
        decreases ls@.len() - k,
    {
        proof {
            assert(ls@.subrange(0, k as int + 1).drop_last() =~= ls@.subrange(0, k as int));
            lemma_count_in_range_le(ls@.subrange(0, k as int), s, e);
        }
        let num = ls[k];
        if num >= s && num <= e {
            count = count + 1;
        }
        k = k + 1;
    }
    assert(ls@.subrange(0, ls@.len() as int) =~= ls@);
    count
}

/// Value of the bits of `s`, most significant first: each step doubles the
/// value so far and adds the next entry.
pub open spec fn binary_value(s: Seq<i32>) -> int
    decreases s.len(),
{
    if s.len() == 0 {
        0
    } else {
        2 * binary_value(s.drop_last()) + s.last()
    }
}

/// Every intermediate value of [`binary_value`] over `s` fits in an `i32`.
pub open spec fn binary_steps_fit(s: Seq<i32>) -> bool {
    forall|k: int|
        0 <= k < s.len() ==> i32::MIN <= 2 * #[trigger] binary_value(s.subrange(0, k)) <= i32::MAX
            && i32::MIN <= binary_value(s.subrange(0, k + 1)) <= i32::MAX
}

/// Converts the binary digits in `ls` (most significant first) to a number:
/// `[1, 0, 1, 0]` gives 10.
pub fn to_decimal(ls: &[i32]) -> (r: i32)
    requires
        binary_steps_fit(ls@),
    ensures
        r == binary_value(ls@),
{
    let mut acc: i32 = 0;
    let mut k: usize = 0;
    assert(ls@.subrange(0, 0) =~= Seq::<i32>::empty());
    while k < ls.len()
        invariant
            k <= ls@.len(),
            binary_steps_fit(ls@),
            acc == binary_value(ls@.subrange(0, k as int)),
        decreases ls@.len() - k,
    {
        assert(ls@.subrange(0, k as int + 1).drop_last() =~= ls@.subrange(0, k as int));
        assert(i32::MIN <= 2 * binary_value(ls@.subrange(0, k as int)) <= i32::MAX);
        acc = acc * 2 + ls[k];
        k = k + 1;
    }
    assert(ls@.subrange(0, ls@.len() as int) =~= ls@);
    acc
}

/// Returns `lst` rotated left by one: the first element becomes the last.
/// `[1, 2, 3, 4]` gives `[2, 3, 4, 1]`.
pub fn rotate(lst: &[i32]) -> (r: Vec<i32>)
    ensures
        r@.len() == lst@.len(),
        forall|i: int| 0 <= i < lst@.len() ==> r@[i] == lst@[(i + 1) % (lst@.len() as int)],
{
    let mut result: Vec<i32> = Vec::new();
    let n = lst.len();
    let mut i: usize = 0;
    while i < n
        invariant
            n == lst@.len(),
            0 <= i <= n,
            result@.len() == i,
            forall|p: int| 0 <= p < result@.len() ==> result@[p] == lst@[(p + 1) % (n as int)],
        decreases n - i,
    {
        result.push(lst[(i + 1) % n]);
        i = i + 1;
    }
    result
}

/// `p` is a prime number.
pub open spec fn is_prime(p: int) -> bool {
    p >= 2 && forall|d: int| 2 <= d < p ==> #[trigger] (p % d) != 0
}

/// Product of the elements of `s`.
pub open spec fn product(s: Seq<u32>) -> int
    decreases s.len(),
{
    if s.len() == 0 {
        1
    } else {
        product(s.drop_last()) * s.last()
    }
}

proof fn lemma_divides_trans(a: int, b: int, c: int)
    requires
        a > 0,
        b > 0,
        c > 0,
        a % b == 0,
        b % c == 0,
    ensures
        a % c == 0,
{
    let x = a / b;
    let y = b / c;
    assert(a == b * x) by (nonlinear_arith)
        requires
            a % b == 0,
            b > 0,
            x == a / b,
    ;
    assert(b == c * y) by (nonlinear_arith)
        requires
            b % c == 0,
            c > 0,
            y == b / c,
    ;
    assert(a == c * (y * x)) by (nonlinear_arith)
        requires
            a == b * x,
            b == c * y,
    ;
    assert((c * (y * x)) % c == 0) by (nonlinear_arith)
        requires
            c > 0,
    ;
}

proof fn lemma_divide_out(prod: int, num: int, f: int)
    requires
        f > 0,
        num % f == 0,
    ensures
        prod * f * (num / f) == prod * num,
        num == f * (num / f),
{
    assert(num == f * (num / f)) by (nonlinear_arith)
        requires
            num % f == 0,
            f > 0,
    ;
    assert(prod * f * (num / f) == prod * (f * (num / f))) by (nonlinear_arith);
}

/// Returns the prime factors of `n` in increasing order, each as often as it
/// divides `n`: 36 gives `[2, 2, 3, 3]`.
pub fn factorize(n: u32) -> (r: Vec<u32>)
    requires
        n >= 2,
    ensures
        product(r@) == n,
        forall|i: int| 0 <= i < r@.len() ==> is_prime(#[trigger] r@[i] as int),
        forall|i: int, j: int| 0 <= i < j < r@.len() ==> r@[i] <= r@[j],
{
    let mut factors: Vec<u32> = Vec::new();
    let mut num: u32 = n;
    let mut factor: u64 = 2;
    while factor <= n as u64
        invariant
            2 <= factor <= n as u64 + 1,
            1 <= num <= n,
            product(factors@) * num == n,
            forall|d: int| 2 <= d < factor ==> #[trigger] (num as int % d) != 0,
            forall|i: int| 0 <= i < factors@.len() ==> is_prime(#[trigger] factors@[i] as int),
            forall|i: int| 0 <= i < factors@.len() ==> #[trigger] factors@[i] < factor,
            forall|i: int, j: int| 0 <= i < j < factors@.len() ==> factors@[i] <= factors@[j],
            num > 1,
        decreases n as u64 + 1 - factor,
    {
        let f: u32 = factor as u32;
        while num % f == 0
            invariant
                f == factor,
                2 <= factor <= n as u64,
                1 <= num <= n,
                product(factors@) * num == n,
                forall|d: int| 2 <= d < factor ==> #[trigger] (num as int % d) != 0,
                forall|i: int| 0 <= i < factors@.len() ==> is_prime(#[trigger] factors@[i] as int),
                forall|i: int| 0 <= i < factors@.len() ==> #[trigger] factors@[i] <= factor,
                forall|i: int, j: int| 0 <= i < j < factors@.len() ==> factors@[i] <= factors@[j],
            decreases num,
        {
            proof {
                assert forall|d: int| 2 <= d < f implies #[trigger] (f as int % d) != 0 by {
                    if f as int % d == 0 {
                        lemma_divides_trans(num as int, f as int, d);
                    }
                }
                lemma_divide_out(product(factors@), num as int, f as int);
                assert(factors@.push(f).drop_last() =~= factors@);
                assert(num as int / f as int <= num as int / 2) by (nonlinear_arith)
                    requires
                        f >= 2,
                        num >= 1,
                ;
                assert(num as int / f as int >= 1) by (nonlinear_arith)
                    requires
                        f >= 2,
                        num as int % f as int == 0,
                        num >= 1,
                ;
            }
            factors.push(f);
            let ghost old_num = num;
            num = num / f;
            proof {
                assert forall|d: int| 2 <= d < factor implies #[trigger] (num as int % d) != 0 by {
                    if num as int % d == 0 {
                        assert(old_num as int % num as int == 0) by (nonlinear_arith)
                            requires
                                old_num as int == f * (old_num as int / f as int),
                                num as int == old_num as int / f as int,
                                num >= 1,
                        ;
                        lemma_divides_trans(old_num as int, num as int, d);
                    }
                }
            }
        }
        if num == 1 {
            return factors;
        }
        factor = factor + 1;
    }
    proof {
        assert((num as int % num as int) == 0);
    }
    factors
}

fn chars_of(s: &str) -> (v: Vec<char>)
    ensures
        v@ == s@,
{
    let n = s.unicode_len();
    let mut v: Vec<char> = Vec::new();
    let mut k: usize = 0;
    while k < n
        invariant
            n == s@.len(),
            k <= n,
            v@ == s@.subrange(0, k as int),
        decreases n - k,
    {
        v.push(s.get_char(k));
        k = k + 1;
        assert(v@ =~= s@.subrange(0, k as int));
    }
    assert(v@ =~= s@);
    v
}

/// `t` occurs in `s` starting at position `i`.
pub open spec fn occurs_at(s: Seq<char>, t: Seq<char>, i: int) -> bool {
    0 <= i && i + t.len() <= s.len() && s.subrange(i, i + t.len()) == t
}

/// Returns whether `target` occurs as a contiguous piece of `s`: "ace" is a
/// substring of "rustacean".
pub fn substr(s: &String, target: &str) -> (r: bool)
    ensures
        r == exists|i: int| occurs_at(s@, target@, i),
{
    let s_str: &str = s.as_str();
    let s_chars = chars_of(s_str);
    let target_chars = chars_of(target);
    let s_len = s_chars.len();
    let target_len = target_chars.len();
    if target_len == 0 {
        assert(s@.subrange(0, 0) =~= target@);
        assert(occurs_at(s@, target@, 0));
        return true;
    }
    if s_len < target_len {
        return false;
    }
    let mut i: usize = 0;
    while i <= s_len - target_len
        invariant
            s_chars@ == s@,
            target_chars@ == target@,
            s_len == s@.len(),
            target_len == target@.len(),
            1 <= target_len <= s_len,
            i <= s_len - target_len + 1,
            forall|p: int| 0 <= p < i ==> !occurs_at(s@, target@, p),
        decreases s_len - i,
    {
        let mut found = true;
        let mut j: usize = 0;
        while j < target_len
            invariant
                s_chars@ == s@,
                target_chars@ == target@,
                s_len == s@.len(),
                target_len == target@.len(),
                i + target_len <= s_len,
                j <= target_len,
                found ==> forall|q: int| 0 <= q < j ==> s@[i + q] == target@[q],
                !found ==> !occurs_at(s@, target@, i as int),
            ensures
                found ==> forall|q: int| 0 <= q < target_len ==> s@[i + q] == target@[q],
                !found ==> !occurs_at(s@, target@, i as int),
            decreases target_len - j,
        {
            if s_chars[i + j] != target_chars[j] {
                assert(s@.subrange(i as int, i + target_len)[j as int] == s@[i + j]);
                found = false;
                break;
            }
            j = j + 1;
        }
        if found {
            assert(s@.subrange(i as int, i + target_len) =~= target@) by {
                assert forall|q: int| 0 <= q < target_len implies s@.subrange(i as int, i + target_len)[q] == target@[q] by {
                    assert(s@[i + q] == target@[q]);
                }
            }
            assert(occurs_at(s@, target@, i as int));
            return true;
        }
        i = i + 1;
    }
    false
}

/// Positions `i .. i + l` of `s` exist and hold one and the same character.
pub open spec fn uniform_at(s: Seq<char>, i: int, l: int) -> bool {
    0 <= i && 1 <= l && i + l <= s.len() && forall|p: int| i <= p < i + l ==> #[trigger] s[p] == s[i]
}

/// The piece of `s` at `i .. i + l` is its first longest run of one repeated
/// character: no run is longer, and none as long starts earlier.
pub open spec fn first_longest_run(s: Seq<char>, i: int, l: int) -> bool {
    &&& uniform_at(s, i, l)
    &&& forall|a: int, m: int| #[trigger] uniform_at(s, a, m) ==> m <= l
    &&& forall|a: int| 0 <= a < i ==> !#[trigger] uniform_at(s, a, l)
}

/// `t` is the first longest run of one repeated character in `s`.
pub open spec fn longest_piece(s: Seq<char>, t: Seq<char>) -> bool {
    exists|i: int| #[trigger]
        first_longest_run(s, i, t.len() as int) && t == s.subrange(i, i + t.len())
}

/// Returns the first longest piece of `s` made of one repeated character, or
/// `None` for the empty string: "ababbba" gives "bbb", "aaabbb" gives "aaa".
pub fn longest_sequence(s: &str) -> (r: Option<&str>)
    ensures
        s@.len() == 0 <==> r is None,
        r is Some ==> longest_piece(s@, r.unwrap()@),
{
    let chars = chars_of(s);
    let n = chars.len();
    if n == 0 {
        return None;
    }
    let mut start: usize = 0;
    let mut max: usize = 1;
    let mut curr: usize = 1;
    let mut k: usize = 1;
    while k < n
        invariant
            chars@ == s@,
            n == s@.len(),
            1 <= k <= n,
            1 <= curr <= k,
            uniform_at(s@, k - curr, curr as int),
            k - curr == 0 || s@[k - curr - 1] != s@[k - 1],
            1 <= max,
            start + max <= k,
            uniform_at(s@, start as int, max as int),
            forall|a: int, m: int| #[trigger] uniform_at(s@, a, m) && a + m <= k ==> m <= max,
            forall|a: int| 0 <= a < start && a + max <= k ==> !#[trigger] uniform_at(s@, a, max as int),
        decreases n - k,
    {
        if chars[k] == chars[k - 1] {
            curr = curr + 1;
        } else {
            curr = 1;
        }
        assert(uniform_at(s@, k + 1 - curr, curr as int));
        assert forall|a: int, m: int| #[trigger] uniform_at(s@, a, m) && a + m == k + 1 implies m <= curr by {
            if a < k + 1 - curr {
                assert(s@[k - curr] == s@[a]);
                assert(s@[k as int] == s@[a]);
            }
        }
        if curr > max {
            max = curr;
            start = k + 1 - curr;
        }
        k = k + 1;
    }
    let piece = s.substring_char(start, start + max);
    assert(first_longest_run(s@, start as int, max as int));
    assert(piece@.len() == max);
    assert(first_longest_run(s@, start as int, piece@.len() as int) && piece@ == s@.subrange(
        start as int,
        start + piece@.len(),
    ));
    assert(longest_piece(s@, piece@));
    Some(piece)
}

/// Some element of `set` equals `x`.
pub open spec fn holds<T: PartialEq>(set: Seq<T>, x: T) -> bool {
    exists|k: int| 0 <= k < set.len() && #[trigger] set[k].eq_spec(&x)
}

/// Returns whether every element of `target` equals some element of `set`:
/// `[1, 3, 2]` is a subset of `[1, 2, 3, 4, 5]`.
pub fn subset<T: PartialEq>(set: &[T], target: &[T]) -> (r: bool)
    ensures
        T::obeys_eq_spec() ==> (r <==> forall|i: int|
            0 <= i < target@.len() ==> holds(set@, #[trigger] target@[i])),
{
    let mut i: usize = 0;
    while i < target.len()
        invariant
            i <= target@.len(),
            T::obeys_eq_spec() ==> forall|p: int| 0 <= p < i ==> holds(set@, #[trigger] target@[p]),
        decreases target@.len() - i,
    {
        let mut found = false;
        let mut k: usize = 0;
        while k < set.len()
            invariant
                i < target@.len(),
                k <= set@.len(),
                T::obeys_eq_spec() ==> (found ==> holds(set@, target@[i as int])),
                T::obeys_eq_spec() ==> (!found ==> forall|q: int| 0 <= q < k ==> !#[trigger] set@[q].eq_spec(&target@[i as int])),
            decreases set@.len() - k,
        {
            if set[k].eq(&target[i]) {
                found = true;
            }
            k = k + 1;
        }
        if !found {
            proof {
                if T::obeys_eq_spec() {
                    assert(!holds(set@, target@[i as int]));
                }
            }
            return false;
        }
        i = i + 1;
    }
    true
}

} // verus!
