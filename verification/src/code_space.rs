//! The code space of a configuration: what it means to enumerate it, and
//! how many codes it holds.

use crate::def::is_code;
use vstd::arithmetic::div_mod::{
    lemma_div_pos_is_pos, lemma_fundamental_div_mod, lemma_fundamental_div_mod_converse,
    lemma_mod_pos_bound, lemma_multiply_divide_lt,
};
use vstd::prelude::*;

verus! {

/// `base` multiplied by itself `exp` times.
pub open spec fn power(base: nat, exp: nat) -> nat
    decreases exp,
{
    if exp == 0 {
        1
    } else {
        power(base, (exp - 1) as nat) * base
    }
}

/// `base * (base - 1) * ...` with `count` factors; zero once `count` exceeds `base`.
pub open spec fn falling_factorial(base: nat, count: nat) -> nat
    decreases count,
{
    if count == 0 {
        1
    } else if count > base {
        0
    } else {
        falling_factorial(base, (count - 1) as nat) * ((base - count + 1) as nat)
    }
}

/// Number of legal codes with `pin_num` pins over `color_num` colours.
pub open spec fn code_count(color_num: nat, pin_num: nat, duplicate: bool) -> nat {
    if duplicate {
        power(color_num, pin_num)
    } else {
        falling_factorial(color_num, pin_num)
    }
}

/// `a` and `b` agree below position `k`, where `a` shows the smaller colour.
pub open spec fn precedes_at(a: Seq<u8>, b: Seq<u8>, k: int) -> bool {
    &&& 0 <= k < a.len()
    &&& k < b.len()
    &&& forall|i: int| 0 <= i < k ==> a[i] == b[i]
    &&& a[k] < b[k]
}

/// `a` comes before `b` in lexicographic order, the first pin weighing most.
pub open spec fn lex_less(a: Seq<u8>, b: Seq<u8>) -> bool {
    exists|k: int| precedes_at(a, b, k)
}

/// `codes` lists every legal code of the configuration exactly once, in
/// lexicographic order.
pub open spec fn enumerates(
    codes: Seq<Seq<u8>>,
    color_num: u8,
    pin_num: u8,
    duplicate: bool,
) -> bool {
    &&& forall|i: int|
        0 <= i < codes.len() ==> is_code(#[trigger] codes[i], color_num, pin_num, duplicate)
    &&& forall|code: Seq<u8>|
        is_code(code, color_num, pin_num, duplicate) ==> #[trigger] codes.contains(code)
    &&& forall|i: int, j: int|
        0 <= i < j < codes.len() ==> lex_less(#[trigger] codes[i], #[trigger] codes[j])
}

/// Number of colours that may follow a legal prefix of `used` pins.
pub open spec fn choices(color_num: nat, used: nat, duplicate: bool) -> nat {
    if duplicate {
        color_num
    } else if used < color_num {
        (color_num - used) as nat
    } else {
        0
    }
}

/// The colours below `colors` that may follow `prefix`, in ascending order.
pub open spec fn free_colors(prefix: Seq<u8>, colors: nat, duplicate: bool) -> Seq<u8>
    decreases colors,
{
    if colors == 0 {
        Seq::empty()
    } else {
        let rest = free_colors(prefix, (colors - 1) as nat, duplicate);
        if duplicate || !prefix.contains((colors - 1) as u8) {
            rest.push((colors - 1) as u8)
        } else {
            rest
        }
    }
}

/// A reference enumeration, built pin by pin: each code of one pin less is
/// followed by each colour that may extend it.
pub open spec fn canonical_codes(color_num: u8, pins: nat, duplicate: bool) -> Seq<Seq<u8>>
    decreases pins,
{
    if pins == 0 {
        seq![Seq::<u8>::empty()]
    } else {
        let prev = canonical_codes(color_num, (pins - 1) as nat, duplicate);
        let m = choices(color_num as nat, (pins - 1) as nat, duplicate) as int;
        Seq::new(
            prev.len() * m as nat,
            |i: int| prev[i / m].push(free_colors(prev[i / m], color_num as nat, duplicate)[i % m]),
        )
    }
}

proof fn lemma_block_index(i: int, m: int, n: int)
    requires
        m > 0,
        0 <= i < n * m,
    ensures
        0 <= i / m < n,
        0 <= i % m < m,
        i == (i / m) * m + i % m,
{
    lemma_fundamental_div_mod(i, m);
    lemma_mod_pos_bound(i, m);
    lemma_div_pos_is_pos(i, m);
    assert(i < m * n) by (nonlinear_arith)
        requires
            i < n * m,
    ;
    lemma_multiply_divide_lt(i, m, n);
    assert(m * (i / m) == (i / m) * m) by (nonlinear_arith);
}

proof fn lemma_block_compose(k: int, r: int, m: int, n: int)
    requires
        0 <= k < n,
        0 <= r < m,
    ensures
        0 <= k * m + r < n * m,
        (k * m + r) / m == k,
        (k * m + r) % m == r,
{
    lemma_fundamental_div_mod_converse(k * m + r, m, k, r);
    assert(0 <= k * m + r < n * m) by (nonlinear_arith)
        requires
            0 <= k < n,
            0 <= r < m,
    ;
}

proof fn lemma_push_contains(s: Seq<u8>, y: u8, x: u8)
    ensures
        s.push(y).contains(x) <==> (s.contains(x) || x == y),
{
    let t = s.push(y);
    if t.contains(x) {
        let i = choose|i: int| 0 <= i < t.len() && t[i] == x;
        if i < s.len() {
            assert(s[i] == x);
        }
    }
    if s.contains(x) {
        let i = choose|i: int| 0 <= i < s.len() && s[i] == x;
        assert(t[i] == x);
    }
    if x == y {
        assert(t[s.len() as int] == x);
    }
}

/// What `free_colors` holds: exactly the colours that may follow, ascending.
proof fn lemma_free_colors(prefix: Seq<u8>, colors: nat, duplicate: bool)
    requires
        colors <= 256,
    ensures
        forall|x: u8|
            #[trigger] free_colors(prefix, colors, duplicate).contains(x) <==> (x < colors && (
            duplicate || !prefix.contains(x))),
        forall|i: int, j: int|
            0 <= i < j < free_colors(prefix, colors, duplicate).len() ==> free_colors(
                prefix,
                colors,
                duplicate,
            )[i] < free_colors(prefix, colors, duplicate)[j],
        forall|i: int|
            0 <= i < free_colors(prefix, colors, duplicate).len() ==> free_colors(
                prefix,
                colors,
                duplicate,
            )[i] < colors,
    decreases colors,
{
    let free = free_colors(prefix, colors, duplicate);
    if colors == 0 {
        assert forall|x: u8| !free.contains(x) by {}
    } else {
        let last = (colors - 1) as u8;
        let rest = free_colors(prefix, (colors - 1) as nat, duplicate);
        lemma_free_colors(prefix, (colors - 1) as nat, duplicate);
        assert forall|x: u8| #[trigger]
            free.contains(x) <==> (x < colors && (duplicate || !prefix.contains(x))) by {
            lemma_push_contains(rest, last, x);
            assert(rest.contains(x) <==> (x < colors - 1 && (duplicate || !prefix.contains(x))));
            assert(last == colors - 1);
            if duplicate || !prefix.contains(last) {
                assert(free == rest.push(last));
            } else {
                assert(free == rest);
            }
        }
    }
}

proof fn lemma_free_colors_len_all(prefix: Seq<u8>, colors: nat)
    ensures
        free_colors(prefix, colors, true).len() == colors,
    decreases colors,
{
    if colors > 0 {
        lemma_free_colors_len_all(prefix, (colors - 1) as nat);
    }
}

proof fn lemma_free_colors_len_empty(colors: nat)
    ensures
        free_colors(Seq::<u8>::empty(), colors, false).len() == colors,
    decreases colors,
{
    if colors > 0 {
        lemma_free_colors_len_empty((colors - 1) as nat);
        assert(!Seq::<u8>::empty().contains((colors - 1) as u8));
    }
}

proof fn lemma_free_colors_len_push(q: Seq<u8>, y: u8, colors: nat)
    requires
        colors <= 256,
        !q.contains(y),
    ensures
        free_colors(q.push(y), colors, false).len() + (if y < colors {
            1nat
        } else {
            0nat
        }) == free_colors(q, colors, false).len(),
    decreases colors,
{
    if colors > 0 {
        lemma_free_colors_len_push(q, y, (colors - 1) as nat);
        lemma_push_contains(q, y, (colors - 1) as u8);
    }
}

/// Every legal prefix may be followed by the same number of colours.
proof fn lemma_free_colors_len(prefix: Seq<u8>, colors: nat, duplicate: bool)
    requires
        colors <= 256,
        !duplicate ==> prefix.no_duplicates(),
        !duplicate ==> forall|i: int| 0 <= i < prefix.len() ==> prefix[i] < colors,
    ensures
        free_colors(prefix, colors, duplicate).len() == choices(colors, prefix.len(), duplicate),
    decreases prefix.len(),
{
    if duplicate {
        lemma_free_colors_len_all(prefix, colors);
    } else if prefix.len() == 0 {
        assert(prefix =~= Seq::<u8>::empty());
        lemma_free_colors_len_empty(colors);
    } else {
        let q = prefix.drop_last();
        let y = prefix.last();
        assert(prefix =~= q.push(y));
        assert(!q.contains(y)) by {
            if q.contains(y) {
                let i = choose|i: int| 0 <= i < q.len() && q[i] == y;
                assert(prefix[i] == prefix[prefix.len() - 1]);
            }
        }
        lemma_free_colors_len(q, colors, duplicate);
        lemma_free_colors_len_push(q, y, colors);
    }
}

/// The reference enumeration holds every legal code exactly once, and as
/// many codes as `code_count` says.
pub proof fn lemma_canonical_codes(color_num: u8, pins: nat, duplicate: bool)
    requires
        pins <= 255,
    ensures
        canonical_codes(color_num, pins, duplicate).len() == code_count(
            color_num as nat,
            pins,
            duplicate,
        ),
        forall|i: int|
            0 <= i < canonical_codes(color_num, pins, duplicate).len() ==> is_code(
                #[trigger] canonical_codes(color_num, pins, duplicate)[i],
                color_num,
                pins as u8,
                duplicate,
            ),
        forall|code: Seq<u8>|
            is_code(code, color_num, pins as u8, duplicate) ==> #[trigger] canonical_codes(
                color_num,
                pins,
                duplicate,
            ).contains(code),
        canonical_codes(color_num, pins, duplicate).no_duplicates(),
    decreases pins,
{
    let codes = canonical_codes(color_num, pins, duplicate);
    if pins == 0 {
        assert(codes[0] =~= Seq::<u8>::empty());
        assert forall|code: Seq<u8>| is_code(code, color_num, 0u8, duplicate) implies codes.contains(
            code,
        ) by {
            assert(code =~= codes[0]);
        }
    } else {
        let less = (pins - 1) as nat;
        let prev = canonical_codes(color_num, less, duplicate);
        let m = choices(color_num as nat, less, duplicate) as int;
        let n = prev.len() as int;
        lemma_canonical_codes(color_num, less, duplicate);
        assert(codes.len() == n * m);
        assert(codes.len() == code_count(color_num as nat, pins, duplicate)) by {
            if !duplicate && pins > color_num {
                assert(m == 0);
                assert(n * m == 0) by (nonlinear_arith)
                    requires
                        m == 0,
                ;
            }
        }
        assert forall|i: int| 0 <= i < codes.len() implies is_code(
            #[trigger] codes[i],
            color_num,
            pins as u8,
            duplicate,
        ) by {
            lemma_extension_legal(color_num, pins, duplicate, i);
        }
        assert forall|code: Seq<u8>| is_code(code, color_num, pins as u8, duplicate) implies codes.contains(
            code,
        ) by {
            let q = code.drop_last();
            let y = code.last();
            assert(code =~= q.push(y));
            assert(is_code(q, color_num, less as u8, duplicate));
            assert(prev.contains(q));
            let k = choose|k: int| 0 <= k < prev.len() && prev[k] == q;
            let free = free_colors(q, color_num as nat, duplicate);
            lemma_free_colors(q, color_num as nat, duplicate);
            lemma_free_colors_len(q, color_num as nat, duplicate);
            assert(!duplicate ==> !q.contains(y)) by {
                if q.contains(y) {
                    let i = choose|i: int| 0 <= i < q.len() && q[i] == y;
                    assert(code[i] == code[code.len() - 1]);
                }
            }
            assert(free.contains(y));
            let r = choose|r: int| 0 <= r < free.len() && free[r] == y;
            lemma_block_compose(k, r, m, n);
            assert(codes[k * m + r] == code);
        }
        assert forall|i: int, j: int| 0 <= i < codes.len() && 0 <= j < codes.len() && i != j implies codes[i]
            != codes[j] by {
            lemma_block_index(i, m, n);
            lemma_block_index(j, m, n);
            let p = prev[i / m];
            let q = prev[j / m];
            let fp = free_colors(p, color_num as nat, duplicate);
            let fq = free_colors(q, color_num as nat, duplicate);
            if codes[i] == codes[j] {
                assert(p.push(fp[i % m]).drop_last() =~= p);
                assert(q.push(fq[j % m]).drop_last() =~= q);
                assert(p == q);
                assert(i / m == j / m);
                assert(p.push(fp[i % m]).last() == fp[i % m]);
                assert(q.push(fq[j % m]).last() == fq[j % m]);
                lemma_free_colors(p, color_num as nat, duplicate);
                lemma_free_colors_len(p, color_num as nat, duplicate);
                assert(i % m == j % m);
            }
        }
    }
}

/// Each entry of the reference enumeration is a legal code.
proof fn lemma_extension_legal(color_num: u8, pins: nat, duplicate: bool, i: int)
    requires
        1 <= pins <= 255,
        0 <= i < canonical_codes(color_num, pins, duplicate).len(),
        forall|k: int|
            0 <= k < canonical_codes(color_num, (pins - 1) as nat, duplicate).len() ==> is_code(
                #[trigger] canonical_codes(color_num, (pins - 1) as nat, duplicate)[k],
                color_num,
                (pins - 1) as u8,
                duplicate,
            ),
    ensures
        is_code(canonical_codes(color_num, pins, duplicate)[i], color_num, pins as u8, duplicate),
{
    let codes = canonical_codes(color_num, pins, duplicate);
    let less = (pins - 1) as nat;
    let prev = canonical_codes(color_num, less, duplicate);
    let m = choices(color_num as nat, less, duplicate) as int;
    let n = prev.len() as int;
    assert(m > 0) by {
        if m == 0 {
            assert(n * m == 0) by (nonlinear_arith)
                requires
                    m == 0,
            ;
        }
    }
    lemma_block_index(i, m, n);
    let p = prev[i / m];
    assert(is_code(p, color_num, less as u8, duplicate));
    let free = free_colors(p, color_num as nat, duplicate);
    lemma_free_colors(p, color_num as nat, duplicate);
    lemma_free_colors_len(p, color_num as nat, duplicate);
    let y = free[i % m];
    assert(free.contains(y));
    let code = p.push(y);
    assert(codes[i] == code);
    if !duplicate {
        assert(!p.contains(y));
        assert forall|a: int, b: int| 0 <= a < code.len() && 0 <= b < code.len() && a != b implies code[a]
            != code[b] by {
            if a < p.len() && b < p.len() {
            } else if a < p.len() {
                assert(p[a] == code[a]);
            } else {
                assert(p[b] == code[b]);
            }
        }
    }
}

/// In lexicographic order no code comes before itself.
pub proof fn lemma_lex_less_irreflexive(a: Seq<u8>)
    ensures
        !lex_less(a, a),
{
}

/// An enumeration holds exactly as many codes as the code space has:
/// `color_num` to the power `pin_num` where colours may repeat, and the
/// falling factorial of `color_num` with `pin_num` factors where they may not.
pub proof fn lemma_enumeration_len(
    codes: Seq<Seq<u8>>,
    color_num: u8,
    pin_num: u8,
    duplicate: bool,
)
    requires
        enumerates(codes, color_num, pin_num, duplicate),
    ensures
        codes.len() == code_count(color_num as nat, pin_num as nat, duplicate),
        codes.no_duplicates(),
{
    let reference = canonical_codes(color_num, pin_num as nat, duplicate);
    lemma_canonical_codes(color_num, pin_num as nat, duplicate);
    assert forall|i: int, j: int| 0 <= i < codes.len() && 0 <= j < codes.len() && i != j implies codes[i]
        != codes[j] by {
        lemma_lex_less_irreflexive(codes[i]);
        if i < j {
            assert(lex_less(codes[i], codes[j]));
        } else {
            assert(lex_less(codes[j], codes[i]));
        }
    }
    assert(codes.to_set() =~= reference.to_set()) by {
        assert forall|code: Seq<u8>| codes.to_set().contains(code) <==> reference.to_set().contains(
            code,
        ) by {
            if codes.contains(code) {
                let i = choose|i: int| 0 <= i < codes.len() && codes[i] == code;
                assert(is_code(codes[i], color_num, pin_num, duplicate));
            }
            if reference.contains(code) {
                let i = choose|i: int| 0 <= i < reference.len() && reference[i] == code;
                assert(is_code(reference[i], color_num, pin_num, duplicate));
            }
        }
    }
    codes.unique_seq_to_set();
    reference.unique_seq_to_set();
}

} // verus!
