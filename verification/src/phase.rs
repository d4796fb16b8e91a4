//! Index and text layout of recorded phase-space trajectories: which points a
//! downsampled trajectory keeps, and the header line of its CSV export.
use vstd::prelude::*;

verus! {

/// How many of the indices `0..n` are multiples of `k`.
pub open spec fn sample_len(n: nat, k: nat) -> nat {
    if n == 0 {
        0
    } else {
        ((n - 1) as nat / k + 1) as nat
    }
}

proof fn lemma_sample_len(n: nat, k: nat, c: nat)
    requires
        k > 0,
        n > 0,
        c > 0,
        (c - 1) * k < n,
        c * k >= n,
    ensures
        c == sample_len(n, k),
{
    let q = (n - 1) as nat / k;
    let r = (n - 1) as nat % k;
    assert((n - 1) as nat == q * k + r && 0 <= r < k) by (nonlinear_arith)
        requires
            k > 0,
            q == (n - 1) as nat / k,
            r == (n - 1) as nat % k,
    ;
    assert(c - 1 == q) by (nonlinear_arith)
        requires
            k > 0,
            (c - 1) * k < n,
            c * k >= n,
            (n - 1) as nat == q * k + r,
            0 <= r < k,
            c > 0,
    ;
}

/// Keep every `k`-th item, starting with the first: the items whose index is
/// a multiple of `k`, in order. `k` may be zero only when there is no item.
pub fn sample_every<T: Clone>(items: &[T], k: usize) -> (kept: Vec<T>)
    requires
        k > 0 || items@.len() == 0,
    ensures
        kept@.len() == sample_len(items@.len(), k as nat),
        forall|m: int| 0 <= m < kept@.len() ==> cloned::<T>(items@[m * k], #[trigger] kept@[m]),
{
    let n = items.len();
    let mut kept: Vec<T> = Vec::new();
    let mut i: usize = 0;
    assert(0 * k == 0) by (nonlinear_arith);
    while i < n
        invariant
            n == items@.len(),
            k > 0 || n == 0,
            i <= n,
            i < n ==> i == kept@.len() * k,
            i == n ==> kept@.len() * k >= n,
            kept@.len() > 0 ==> (kept@.len() - 1) * k < n,
            forall|m: int| 0 <= m < kept@.len() ==> cloned::<T>(items@[m * k], #[trigger] kept@[m]),
        decreases n - i,
    {
        let ghost m = kept@.len() as int;
        let ghost old_kept = kept@;
        let item = items[i].clone();
        kept.push(item);
        assert((m + 1) * k == m * k + k) by (nonlinear_arith);
        assert forall|j: int| 0 <= j < kept@.len() implies cloned::<T>(
            items@[j * k],
            #[trigger] kept@[j],
        ) by {
            if j < m {
                assert(kept@[j] == old_kept[j]);
            }
        }
        if k < n - i {
            i = i + k;
        } else {
            i = n;
        }
    }
    if n > 0 {
        proof {
            lemma_sample_len(n as nat, k as nat, kept@.len());
        }
    }
    kept
}

/// The decimal digit character for `d`.
pub open spec fn digit_char(d: nat) -> char {
    ((d + 48) as u8) as char
}

/// The decimal numeral of `v`, without leading zeros.
pub open spec fn decimal(v: nat) -> Seq<char>
    decreases v,
{
    if v < 10 {
        seq![digit_char(v)]
    } else {
        decimal(v / 10).push(digit_char(v % 10))
    }
}

/// The column names `,{c}0,{c}1,...` for `n` columns.
pub open spec fn indexed_columns(c: char, n: nat) -> Seq<char>
    decreases n,
{
    if n == 0 {
        Seq::empty()
    } else {
        indexed_columns(c, (n - 1) as nat) + seq![',', c] + decimal((n - 1) as nat)
    }
}

/// The header line of a trajectory CSV with `n` degrees of freedom:
/// `time,q0,...,q{n-1},p0,...,p{n-1},energy` and a newline.
pub open spec fn csv_header_text(n: nat) -> Seq<char> {
    seq!['t', 'i', 'm', 'e'] + indexed_columns('q', n) + indexed_columns('p', n) + seq![
        ',',
        'e',
        'n',
        'e',
        'r',
        'g',
        'y',
        '\n',
    ]
}

fn digit_str(d: usize) -> (r: &'static str)
    requires
        d < 10,
    ensures
        r@ == seq![digit_char(d as nat)],
{
    proof {
        reveal_strlit("0");
        reveal_strlit("1");
        reveal_strlit("2");
        reveal_strlit("3");
        reveal_strlit("4");
        reveal_strlit("5");
        reveal_strlit("6");
        reveal_strlit("7");
        reveal_strlit("8");
        reveal_strlit("9");
    }
    if d == 0 {
        "0"
    } else if d == 1 {
        "1"
    } else if d == 2 {
        "2"
    } else if d == 3 {
        "3"
    } else if d == 4 {
        "4"
    } else if d == 5 {
        "5"
    } else if d == 6 {
        "6"
    } else if d == 7 {
        "7"
    } else if d == 8 {
        "8"
    } else {
        "9"
    }
}

/// Append the decimal numeral of `v` to `out`.
fn push_decimal(out: &mut String, v: usize)
    ensures
        final(out)@ == old(out)@ + decimal(v as nat),
{
    // Digits, least significant first.
    let mut digits: Vec<usize> = Vec::new();
    let mut rest: usize = v;
    loop
        invariant_except_break
            decimal(v as nat) == decimal(rest as nat) + digits@.reverse().map_values(
                |d: usize| digit_char(d as nat),
            ),
        invariant
            forall|m: int| 0 <= m < digits@.len() ==> #[trigger] digits@[m] < 10,
        ensures
            decimal(v as nat) == digits@.reverse().map_values(|d: usize| digit_char(d as nat)),
        decreases rest,
    {
        let ghost old_digits = digits@;
        let ghost r = rest as nat;
        digits.push(rest % 10);
        assert(digits@.reverse().map_values(|d: usize| digit_char(d as nat)) =~= seq![
            digit_char(r % 10),
        ] + old_digits.reverse().map_values(|d: usize| digit_char(d as nat)));
        if rest < 10 {
            assert(decimal(r) =~= seq![digit_char(r % 10)]);
            assert(decimal(v as nat) =~= digits@.reverse().map_values(
                |d: usize| digit_char(d as nat),
            ));
            break;
        }
        rest = rest / 10;
        assert(decimal(r) == decimal(rest as nat).push(digit_char(r % 10)));
        assert(decimal(rest as nat) + digits@.reverse().map_values(|d: usize| digit_char(d as nat))
            =~= decimal(r) + old_digits.reverse().map_values(|d: usize| digit_char(d as nat)));
    }
    let ghost o0 = out@;
    let ghost text = digits@.reverse().map_values(|d: usize| digit_char(d as nat));
    let n = digits.len();
    let mut i: usize = n;
    while i > 0
        invariant
            i <= n,
            n == digits@.len(),
            text == digits@.reverse().map_values(|d: usize| digit_char(d as nat)),
            forall|m: int| 0 <= m < digits@.len() ==> #[trigger] digits@[m] < 10,
            out@ == o0 + text.take(n - i),
        decreases i,
    {
        i = i - 1;
        out.append(digit_str(digits[i]));
        assert(text.take(n - i) =~= text.take(n - i - 1).push(digit_char(digits@[i as int] as nat)));
    }
    assert(text.take(n as int) =~= text);
}

fn push_indexed_columns(out: &mut String, c: &str, n: usize)
    requires
        c@.len() == 1,
    ensures
        final(out)@ == old(out)@ + indexed_columns(c@[0], n as nat),
{
    let ghost o0 = out@;
    proof {
        reveal_strlit(",");
    }
    let mut i: usize = 0;
    while i < n
        invariant
            i <= n,
            c@.len() == 1,
            out@ == o0 + indexed_columns(c@[0], i as nat),
        decreases n - i,
    {
        let ghost before = out@;
        proof {
            reveal_strlit(",");
        }
        out.append(",");
        out.append(c);
        push_decimal(out, i);
        assert(c@ =~= seq![c@[0]]);
        assert(indexed_columns(c@[0], (i + 1) as nat) == indexed_columns(c@[0], i as nat) + seq![
            ',',
            c@[0],
        ] + decimal(i as nat));
        assert(out@ =~= before + seq![',', c@[0]] + decimal(i as nat));
        i = i + 1;
    }
}

/// The header line of the CSV export of a trajectory with `n` degrees of
/// freedom.
pub fn csv_header(n: usize) -> (header: String)
    ensures
        header@ == csv_header_text(n as nat),
{
    proof {
        reveal_strlit("time");
        reveal_strlit("q");
        reveal_strlit("p");
        reveal_strlit(",energy\n");
    }
    let mut header = String::from_str("time");
    push_indexed_columns(&mut header, "q", n);
    push_indexed_columns(&mut header, "p", n);
    header.append(",energy\n");
    assert(header@ =~= csv_header_text(n as nat));
    header
}

} // verus!
