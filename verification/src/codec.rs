//! The persisted configuration format: a JSON object with stable field
//! names, written compactly. Serialization is exact — the output is the
//! canonical text of the configuration — and parsing accepts canonical text
//! and returns exactly the configuration it serializes.

use crate::config::Binding;
use crate::config::ClickType;
use crate::config::Config;
use crate::config::CustomBinding;
use crate::config::names_nonempty;
use crate::config::names_unique;
use crate::text::chars_vec;
use crate::text::dec_digits;
use crate::text::push_dec_digits;
use crate::text::push_str_chars;
use crate::text::string_from_chars;
use vstd::prelude::*;

verus! {

/// How one character is written inside a quoted string: quotes and
/// backslashes carry a backslash escape, everything else stands as itself.
pub open spec fn esc_char(ch: char) -> Seq<char> {
    if ch == '"' {
        seq!['\\', '"']
    } else if ch == '\\' {
        seq!['\\', '\\']
    } else {
        seq![ch]
    }
}

/// The escaped body of a quoted string.
pub open spec fn esc_seq(s: Seq<char>) -> Seq<char>
    decreases s.len(),
{
    if s.len() == 0 {
        Seq::empty()
    } else {
        esc_char(s[0]) + esc_seq(s.skip(1))
    }
}

/// A quoted, escaped string.
pub open spec fn ser_string(s: Seq<char>) -> Seq<char> {
    seq!['"'] + esc_seq(s) + seq!['"']
}

/// A signed decimal number.
pub open spec fn ser_i32(n: int) -> Seq<char> {
    if n < 0 {
        seq!['-'] + dec_digits((-n) as nat)
    } else {
        dec_digits(n as nat)
    }
}

/// A click kind, as its quoted name.
pub open spec fn ser_click(k: ClickType) -> Seq<char> {
    match k {
        ClickType::Left => "\"Left\""@,
        ClickType::Right => "\"Right\""@,
    }
}

/// One binding object.
pub open spec fn ser_binding(b: Binding) -> Seq<char> {
    "{\"coords\":["@ + ser_i32(b.x as int) + seq![','] + ser_i32(b.y as int)
        + "],\"click_type\":"@ + ser_click(b.click_type) + seq!['}']
}

/// One custom entry object.
pub open spec fn ser_custom(cb: CustomBinding) -> Seq<char> {
    "{\"name\":"@ + ser_string(cb.name@) + ",\"binding\":"@ + ser_binding(cb.binding)
        + seq!['}']
}

/// Comma-joined list items.
pub open spec fn ser_join(items: Seq<Seq<char>>) -> Seq<char>
    decreases items.len(),
{
    if items.len() == 0 {
        Seq::empty()
    } else if items.len() == 1 {
        items[0]
    } else {
        items[0] + seq![','] + ser_join(items.skip(1))
    }
}

/// The canonical text of a configuration.
pub open spec fn ser_config(c: Config) -> Seq<char> {
    "{\"dialogs\":["@ + ser_join(c.dialogs@.map_values(|b: Binding| ser_binding(b)))
        + "],\"yes\":"@ + ser_binding(c.yes) + ",\"no\":"@ + ser_binding(c.no)
        + ",\"custom\":["@ + ser_join(c.custom@.map_values(|cb: CustomBinding| ser_custom(cb)))
        + "],\"next_custom_id\":"@ + dec_digits(c.next_custom_id as nat) + seq!['}']
}

/// Appending one item to a joined list appends a separator (past the first
/// item) and the item's text.
proof fn lemma_ser_join_snoc(items: Seq<Seq<char>>, i: int)
    requires
        0 <= i < items.len(),
    ensures
        ser_join(items.take(i + 1)) == ser_join(items.take(i)) + (if i == 0 {
            Seq::<char>::empty()
        } else {
            seq![',']
        }) + items[i],
    decreases i,
{
    if i == 0 {
        assert(items.take(1) =~= seq![items[0]]);
        assert(ser_join(items.take(1)) == items[0]);
        assert(ser_join(items.take(0)) =~= Seq::<char>::empty()) by {
            assert(items.take(0) =~= Seq::<Seq<char>>::empty());
        }
        assert(ser_join(items.take(i + 1)) =~= ser_join(items.take(i)) + Seq::<char>::empty()
            + items[i]);
    } else {
        let rest = items.skip(1);
        lemma_ser_join_snoc(rest, i - 1);
        assert(items.take(i + 1).skip(1) =~= rest.take(i));
        assert(items.take(i).skip(1) =~= rest.take(i - 1));
        assert(items.take(i + 1).len() >= 2);
        assert(ser_join(items.take(i + 1)) == items[0] + seq![','] + ser_join(rest.take(i)));
        if i == 1 {
            assert(ser_join(items.take(1)) == items[0]);
            assert(rest.take(1) =~= seq![rest[0]]);
            assert(ser_join(rest.take(1)) == rest[0]);
            assert(ser_join(items.take(2)) =~= ser_join(items.take(1)) + seq![','] + items[1]);
        } else {
            assert(ser_join(items.take(i)) == items[0] + seq![','] + ser_join(rest.take(i - 1)));
            assert(rest[i - 1] == items[i]);
            assert(ser_join(items.take(i + 1)) =~= ser_join(items.take(i)) + seq![',']
                + items[i]);
        }
    }
}

/// Escaping a single character gives its escape.
proof fn lemma_esc_single(c: char)
    ensures
        esc_seq(seq![c]) == esc_char(c),
{
    let s = seq![c];
    assert(s.skip(1) =~= Seq::<char>::empty());
    assert(esc_seq(s.skip(1)) =~= Seq::<char>::empty());
    assert(esc_seq(s) == esc_char(c) + esc_seq(s.skip(1)));
    assert(esc_char(c) + esc_seq(s.skip(1)) =~= esc_char(c));
}

/// Escaping distributes over concatenation.
proof fn lemma_esc_append(a: Seq<char>, b: Seq<char>)
    ensures
        esc_seq(a + b) == esc_seq(a) + esc_seq(b),
    decreases a.len(),
{
    if a.len() == 0 {
        assert(a + b =~= b);
        assert(esc_seq(a) =~= Seq::<char>::empty());
        assert(esc_seq(a) + esc_seq(b) =~= esc_seq(b));
    } else {
        lemma_esc_append(a.skip(1), b);
        assert((a + b).skip(1) =~= a.skip(1) + b);
        assert((a + b)[0] == a[0]);
        assert(esc_seq(a + b) =~= esc_seq(a) + esc_seq(b));
    }
}

/// Appends the escaped body of `s`.
fn push_esc(out: &mut Vec<char>, s: &str)
    ensures
        final(out)@ == old(out)@ + esc_seq(s@),
{
    let cs = chars_vec(s);
    let n = cs.len();
    let mut i: usize = 0;
    while i < n
        invariant
            i <= n,
            n == cs@.len(),
            cs@ == s@,
            out@ == old(out)@ + esc_seq(s@.take(i as int)),
        decreases n - i,
    {
        let c = cs[i];
        if c == '"' {
            out.push('\\');
            out.push('"');
        } else if c == '\\' {
            out.push('\\');
            out.push('\\');
        } else {
            out.push(c);
        }
        proof {
            assert(s@.take(i + 1 as int) =~= s@.take(i as int) + seq![s@[i as int]]);
            lemma_esc_append(s@.take(i as int), seq![s@[i as int]]);
            lemma_esc_single(s@[i as int]);
            assert(out@ =~= old(out)@ + esc_seq(s@.take(i + 1 as int)));
        }
        i = i + 1;
    }
    proof {
        assert(s@.take(n as int) =~= s@);
    }
}

/// Appends a quoted, escaped string.
fn push_string(out: &mut Vec<char>, s: &str)
    ensures
        final(out)@ == old(out)@ + ser_string(s@),
{
    out.push('"');
    push_esc(out, s);
    out.push('"');
    proof {
        assert(out@ =~= old(out)@ + ser_string(s@));
    }
}

/// Appends a signed decimal number.
fn push_i32(out: &mut Vec<char>, n: i32)
    ensures
        final(out)@ == old(out)@ + ser_i32(n as int),
{
    if n < 0 {
        out.push('-');
        let mag: u32 = (-(n as i64)) as u32;
        push_dec_digits(out, mag);
        proof {
            assert(out@ =~= old(out)@ + ser_i32(n as int));
        }
    } else {
        push_dec_digits(out, n as u32);
    }
}

/// Appends a click kind.
fn push_click(out: &mut Vec<char>, k: ClickType)
    ensures
        final(out)@ == old(out)@ + ser_click(k),
{
    match k {
        ClickType::Left => push_str_chars(out, "\"Left\""),
        ClickType::Right => push_str_chars(out, "\"Right\""),
    }
}

/// Appends one binding object.
fn push_binding(out: &mut Vec<char>, b: &Binding)
    ensures
        final(out)@ == old(out)@ + ser_binding(*b),
{
    push_str_chars(out, "{\"coords\":[");
    push_i32(out, b.x);
    out.push(',');
    push_i32(out, b.y);
    push_str_chars(out, "],\"click_type\":");
    push_click(out, b.click_type);
    out.push('}');
    proof {
        assert(out@ =~= old(out)@ + ser_binding(*b));
    }
}

/// Appends one custom entry object.
fn push_custom(out: &mut Vec<char>, cb: &CustomBinding)
    ensures
        final(out)@ == old(out)@ + ser_custom(*cb),
{
    push_str_chars(out, "{\"name\":");
    push_string(out, cb.name.as_str());
    push_str_chars(out, ",\"binding\":");
    push_binding(out, &cb.binding);
    out.push('}');
    proof {
        assert(out@ =~= old(out)@ + ser_custom(*cb));
    }
}

/// The canonical text of a configuration, ready to persist.
pub fn to_json(c: &Config) -> (s: String)
    ensures
        s@ == ser_config(*c),
{
    let mut out: Vec<char> = Vec::new();
    push_str_chars(&mut out, "{\"dialogs\":[");
    let ghost ditems = c.dialogs@.map_values(|b: Binding| ser_binding(b));
    let mut i: usize = 0;
    while i < c.dialogs.len()
        invariant
            i <= c.dialogs@.len(),
            ditems == c.dialogs@.map_values(|b: Binding| ser_binding(b)),
            out@ == "{\"dialogs\":["@ + ser_join(ditems.take(i as int)),
        decreases c.dialogs@.len() - i,
    {
        if i > 0 {
            out.push(',');
        }
        push_binding(&mut out, &c.dialogs[i]);
        proof {
            lemma_ser_join_snoc(ditems, i as int);
            assert(out@ =~= "{\"dialogs\":["@ + ser_join(ditems.take(i + 1 as int)));
        }
        i = i + 1;
    }
    proof {
        assert(ditems.take(c.dialogs@.len() as int) =~= ditems);
    }
    push_str_chars(&mut out, "],\"yes\":");
    push_binding(&mut out, &c.yes);
    push_str_chars(&mut out, ",\"no\":");
    push_binding(&mut out, &c.no);
    push_str_chars(&mut out, ",\"custom\":[");
    let ghost prefix = out@;
    let ghost citems = c.custom@.map_values(|cb: CustomBinding| ser_custom(cb));
    let mut j: usize = 0;
    while j < c.custom.len()
        invariant
            j <= c.custom@.len(),
            citems == c.custom@.map_values(|cb: CustomBinding| ser_custom(cb)),
            out@ == prefix + ser_join(citems.take(j as int)),
        decreases c.custom@.len() - j,
    {
        if j > 0 {
            out.push(',');
        }
        push_custom(&mut out, &c.custom[j]);
        proof {
            lemma_ser_join_snoc(citems, j as int);
            assert(out@ =~= prefix + ser_join(citems.take(j + 1 as int)));
        }
        j = j + 1;
    }
    proof {
        assert(citems.take(c.custom@.len() as int) =~= citems);
    }
    push_str_chars(&mut out, "],\"next_custom_id\":");
    push_dec_digits(&mut out, c.next_custom_id);
    out.push('}');
    proof {
        assert(out@ =~= ser_config(*c));
    }
    string_from_chars(&out)
}

/// Adjacent pieces of a string compose.
proof fn lemma_subrange_concat(v: Seq<char>, a: int, b: int, c: int)
    requires
        0 <= a <= b <= c <= v.len(),
    ensures
        v.subrange(a, c) == v.subrange(a, b) + v.subrange(b, c),
{
    assert(v.subrange(a, c) =~= v.subrange(a, b) + v.subrange(b, c));
}

/// Consumes exactly `lit` at `i`; succeeds if and only if it stands there.
fn expect_lit(v: &Vec<char>, i: usize, lit: &str) -> (r: Option<usize>)
    requires
        i <= v@.len(),
    ensures
        match r {
            Some(j) => {
                &&& j == i + lit@.len()
                &&& j <= v@.len()
                &&& v@.subrange(i as int, j as int) == lit@
            },
            None => !(i + lit@.len() <= v@.len() && v@.subrange(i as int, i + lit@.len())
                == lit@),
        },
{
    let lc = chars_vec(lit);
    let m = lc.len();
    if v.len() - i < m {
        return None;
    }
    let mut k: usize = 0;
    while k < m
        invariant
            k <= m,
            m == lit@.len(),
            lc@ == lit@,
            i + m <= v.len(),
            forall|t: int| 0 <= t < k ==> v@[i + t] == lit@[t],
        decreases m - k,
    {
        if v[i + k] != lc[k] {
            proof {
                assert(v@.subrange(i as int, i + lit@.len())[k as int] != lit@[k as int]);
            }
            return None;
        }
        k = k + 1;
    }
    proof {
        assert(v@.subrange(i as int, (i + m) as int) =~= lit@);
    }
    Some(i + m)
}

/// Canonical text of the number `n` stands at `i`, ended by the input's end
/// or a non-digit.
pub open spec fn num_at(v: Seq<char>, i: int, n: u32) -> bool {
    let d = dec_digits(n as nat);
    &&& 0 <= i
    &&& i + d.len() <= v.len()
    &&& v.subrange(i, i + d.len()) == d
    &&& (i + d.len() == v.len() || !crate::text::is_digit_char(v[i + d.len()]))
}

/// Reads a canonical unsigned number: digits with no leading zero, ended by
/// the input's end or a non-digit. Succeeds on exactly the text `num_at`
/// describes, returning that number.
fn parse_u32(v: &Vec<char>, i: usize) -> (r: Option<(u32, usize)>)
    requires
        i <= v@.len(),
    ensures
        match r {
            Some(p) => {
                &&& i < p.1 <= v@.len()
                &&& v@.subrange(i as int, p.1 as int) == dec_digits(p.0 as nat)
                &&& (p.1 == v@.len() || !crate::text::is_digit_char(v@[p.1 as int]))
            },
            None => true,
        },
        forall|n2: u32|
            num_at(v@, i as int, n2) ==> (r matches Some(p) && p.0 == n2 && p.1 == i + dec_digits(
                n2 as nat,
            ).len()),
{
    let n = v.len();
    if i >= n || !crate::text::is_digit_exec(v[i]) {
        proof {
            assert forall|n2: u32| num_at(v@, i as int, n2) implies false by {
                crate::text::lemma_dec_digits_shape(n2 as nat);
                assert(v@[i as int] == dec_digits(n2 as nat)[0]);
            }
        }
        return None;
    }
    if v[i] == '0' {
        if i + 1 < n && crate::text::is_digit_exec(v[i + 1]) {
            proof {
                assert forall|n2: u32| num_at(v@, i as int, n2) implies false by {
                    crate::text::lemma_dec_digits_shape(n2 as nat);
                    assert(v@[i as int] == dec_digits(n2 as nat)[0]);
                    assert(n2 == 0);
                    assert(dec_digits(n2 as nat).len() == 1);
                }
            }
            return None;
        }
        proof {
            crate::text::lemma_dec_digits_shape(0);
            assert(v@.subrange(i as int, (i + 1) as int) =~= dec_digits(0));
            assert forall|n2: u32| num_at(v@, i as int, n2) implies n2 == 0 by {
                crate::text::lemma_dec_digits_shape(n2 as nat);
                assert(v@[i as int] == dec_digits(n2 as nat)[0]);
            }
        }
        return Some((0, i + 1));
    }
    let mut j: usize = i;
    let mut acc: u64 = 0;
    while j < n && crate::text::is_digit_exec(v[j])
        invariant
            i <= j <= n,
            n == v@.len(),
            crate::text::is_digit_char(v@[i as int]),
            v@[i as int] != '0',
            forall|t: int| i <= t < j ==> crate::text::is_digit_char(#[trigger] v@[t]),
            acc == crate::text::dec_val(v@.subrange(i as int, j as int)),
            acc <= u32::MAX,
        decreases n - j,
    {
        let d = crate::text::digit_val_exec(v[j]);
        acc = acc * 10 + d as u64;
        proof {
            let s1 = v@.subrange(i as int, (j + 1) as int);
            assert(s1.drop_last() =~= v@.subrange(i as int, j as int));
            assert(s1.last() == v@[j as int]);
        }
        if acc > 0xFFFF_FFFF {
            proof {
                assert forall|n2: u32| num_at(v@, i as int, n2) implies false by {
                    let d2 = dec_digits(n2 as nat);
                    let ll = d2.len() as int;
                    crate::text::lemma_dec_digits_shape(n2 as nat);
                    if j + 1 - i <= ll {
                        assert(v@.subrange(i as int, (j + 1) as int) =~= d2.take(j + 1 - i));
                        crate::text::lemma_dec_val_take_le(d2, j + 1 - i);
                        crate::text::lemma_dec_val_of_digits(n2 as nat);
                        assert(acc <= n2);
                    } else {
                        assert(i + ll <= j);
                        assert(crate::text::is_digit_char(v@[i + ll]));
                    }
                }
            }
            return None;
        }
        j = j + 1;
    }
    if j == i {
        proof {
            assert(false);
        }
        return None;
    }
    proof {
        let s = v@.subrange(i as int, j as int);
        assert(s[0] == v@[i as int]);
        crate::text::lemma_digits_canonical(s);
        assert forall|n2: u32|
            num_at(v@, i as int, n2) implies acc == n2 && j == i + dec_digits(
            n2 as nat,
        ).len() by {
            let d2 = dec_digits(n2 as nat);
            let ll = d2.len() as int;
            crate::text::lemma_dec_digits_shape(n2 as nat);
            if j - i < ll {
                assert(v@[j as int] == d2[j - i]);
                assert(crate::text::is_digit_char(v@[j as int]));
            }
            if j - i > ll {
                assert(i + ll < j);
                assert(crate::text::is_digit_char(v@[i + ll]));
            }
            assert(j - i == ll);
            assert(v@.subrange(i as int, j as int) =~= d2);
            crate::text::lemma_dec_val_of_digits(n2 as nat);
        }
    }
    Some((acc as u32, j))
}

/// Canonical text of the signed number `x` stands at `i`, ended by the
/// input's end or a non-digit.
pub open spec fn i32_at(v: Seq<char>, i: int, x: i32) -> bool {
    let d = ser_i32(x as int);
    &&& 0 <= i
    &&& i + d.len() <= v.len()
    &&& v.subrange(i, i + d.len()) == d
    &&& (i + d.len() == v.len() || !crate::text::is_digit_char(v[i + d.len()]))
}

/// Reads a canonical signed number; succeeds on exactly the text `i32_at`
/// describes, returning that number.
fn parse_i32(v: &Vec<char>, i: usize) -> (r: Option<(i32, usize)>)
    requires
        i <= v@.len(),
    ensures
        match r {
            Some(p) => {
                &&& i < p.1 <= v@.len()
                &&& v@.subrange(i as int, p.1 as int) == ser_i32(p.0 as int)
            },
            None => true,
        },
        forall|x: i32|
            i32_at(v@, i as int, x) ==> (r matches Some(p) && p.0 == x && p.1 == i + ser_i32(
                x as int,
            ).len()),
{
    proof {
        assert forall|x: i32| i32_at(v@, i as int, x) && x >= 0 implies num_at(
            v@,
            i as int,
            x as u32,
        ) by {
            assert(ser_i32(x as int) == dec_digits(x as nat));
        }
        assert forall|x: i32| i32_at(v@, i as int, x) && x < 0 implies v@[i as int] == '-'
            && num_at(v@, (i + 1) as int, (-(x as int)) as u32) by {
            let d = dec_digits((-(x as int)) as nat);
            assert(ser_i32(x as int) == seq!['-'] + d);
            assert(v@[i as int] == (seq!['-'] + d)[0]);
            assert forall|t: int| 0 <= t < d.len() implies v@.subrange(
                (i + 1) as int,
                i + 1 + d.len(),
            )[t] == d[t] by {
                assert(v@.subrange(i as int, i + ser_i32(x as int).len())[1 + t] == (seq!['-']
                    + d)[1 + t]);
            }
            assert(v@.subrange((i + 1) as int, i + 1 + d.len()) =~= d);
        }
        assert forall|x: i32| i32_at(v@, i as int, x) && x >= 0 implies v@[i as int]
            != '-' by {
            crate::text::lemma_dec_digits_shape(x as nat);
            assert(v@[i as int] == dec_digits(x as nat)[0]);
        }
    }
    let n = v.len();
    if i < n && v[i] == '-' {
        match parse_u32(v, i + 1) {
            None => None,
            Some((m, j)) => {
                if m == 0 {
                    proof {
                        assert forall|x: i32| i32_at(v@, i as int, x) implies false by {
                            crate::text::lemma_dec_digits_shape((-(x as int)) as nat);
                        }
                    }
                    return None;
                }
                if m > 2147483648 {
                    proof {
                        assert forall|x: i32| i32_at(v@, i as int, x) implies false by {
                            crate::text::lemma_dec_digits_injective(
                                m as nat,
                                (-(x as int)) as nat,
                            );
                        }
                    }
                    return None;
                }
                let x: i32 = (-(m as i64)) as i32;
                proof {
                    assert(x as int == -(m as int));
                    assert(v@.subrange(i as int, j as int) =~= seq!['-'] + v@.subrange(
                        (i + 1) as int,
                        j as int,
                    ));
                    assert forall|x2: i32| i32_at(v@, i as int, x2) implies x2 == x && j == i
                        + ser_i32(x2 as int).len() by {
                        if x2 >= 0 {
                            crate::text::lemma_dec_digits_shape(x2 as nat);
                        }
                    }
                }
                Some((x, j))
            },
        }
    } else {
        match parse_u32(v, i) {
            None => None,
            Some((m, j)) => {
                if m > 2147483647 {
                    proof {
                        assert forall|x: i32| i32_at(v@, i as int, x) implies false by {
                            if x >= 0 {
                                crate::text::lemma_dec_digits_injective(m as nat, x as nat);
                            } else {
                                crate::text::lemma_dec_digits_shape((-(x as int)) as nat);
                                assert(v@[i as int] == '-');
                            }
                        }
                    }
                    return None;
                }
                proof {
                    assert forall|x2: i32| i32_at(v@, i as int, x2) implies x2 == m as i32 && j
                        == i + ser_i32(x2 as int).len() by {
                        if x2 < 0 {
                            assert(v@[i as int] == '-');
                            crate::text::lemma_dec_digits_shape(m as nat);
                            assert(v@[i as int] == dec_digits(m as nat)[0]);
                        }
                    }
                }
                Some((m as i32, j))
            },
        }
    }
}

/// The text of the click kind `k` stands at `i`.
pub open spec fn click_at(v: Seq<char>, i: int, k: ClickType) -> bool {
    &&& 0 <= i
    &&& i + ser_click(k).len() <= v.len()
    &&& v.subrange(i, i + ser_click(k).len()) == ser_click(k)
}

/// Reads a click kind; succeeds on exactly the two quoted names.
fn parse_click(v: &Vec<char>, i: usize) -> (r: Option<(ClickType, usize)>)
    requires
        i <= v@.len(),
    ensures
        match r {
            Some(p) => {
                &&& i <= p.1 <= v@.len()
                &&& v@.subrange(i as int, p.1 as int) == ser_click(p.0)
            },
            None => true,
        },
        forall|k: ClickType|
            click_at(v@, i as int, k) ==> (r matches Some(p) && p.0 == k && p.1 == i + ser_click(
                k,
            ).len()),
{
    proof {
        reveal_strlit("\"Left\"");
        reveal_strlit("\"Right\"");
        if click_at(v@, i as int, ClickType::Left) && click_at(v@, i as int, ClickType::Right) {
            assert(v@[i + 1] == "\"Left\""@[1]);
            assert(v@[i + 1] == "\"Right\""@[1]);
            assert(false);
        }
    }
    match expect_lit(v, i, "\"Left\"") {
        Some(j) => Some((ClickType::Left, j)),
        None => match expect_lit(v, i, "\"Right\"") {
            Some(j) => Some((ClickType::Right, j)),
            None => None,
        },
    }
}

/// The quoted text of the string `s2` stands at `i`.
pub open spec fn str_at(v: Seq<char>, i: int, s2: Seq<char>) -> bool {
    &&& 0 <= i
    &&& i + ser_string(s2).len() <= v.len()
    &&& v.subrange(i, i + ser_string(s2).len()) == ser_string(s2)
}

/// What stands in quoted text after the escape of the first `k` characters:
/// the escape of the next character, or the closing quote.
proof fn lemma_str_at_char(v: Seq<char>, i: int, s2: Seq<char>, k: int)
    requires
        str_at(v, i, s2),
        0 <= k <= s2.len(),
    ensures
        esc_seq(s2) == esc_seq(s2.take(k)) + esc_seq(s2.skip(k)),
        esc_seq(s2.take(k)).len() <= esc_seq(s2).len(),
        k < s2.len() ==> v[i + 1 + esc_seq(s2.take(k)).len()] == esc_char(s2[k])[0],
        k < s2.len() && (s2[k] == '"' || s2[k] == '\\') ==> v[i + 2 + esc_seq(
            s2.take(k),
        ).len()] == s2[k],
        k < s2.len() ==> esc_seq(s2.take(k + 1)) == esc_seq(s2.take(k)) + esc_char(s2[k]),
        k == s2.len() ==> v[i + 1 + esc_seq(s2.take(k)).len()] == '"' && esc_seq(
            s2.take(k),
        ).len() == esc_seq(s2).len(),
{
    let lenk = esc_seq(s2.take(k)).len() as int;
    let ll = ser_string(s2).len() as int;
    assert(s2.take(k) + s2.skip(k) =~= s2);
    lemma_esc_append(s2.take(k), s2.skip(k));
    if k < s2.len() {
        assert(s2.skip(k).len() > 0);
        assert(s2.skip(k)[0] == s2[k]);
        assert(esc_seq(s2.skip(k)) == esc_char(s2[k]) + esc_seq(s2.skip(k).skip(1)));
        assert(esc_seq(s2)[lenk] == esc_char(s2[k])[0]);
        assert(v.subrange(i, i + ll)[1 + lenk] == ser_string(s2)[1 + lenk]);
        assert(ser_string(s2)[1 + lenk] == esc_seq(s2)[lenk]);
        if s2[k] == '"' || s2[k] == '\\' {
            assert(esc_char(s2[k]).len() == 2);
            assert(esc_seq(s2)[lenk + 1] == esc_char(s2[k])[1]);
            assert(esc_char(s2[k])[1] == s2[k]);
            assert(v.subrange(i, i + ll)[2 + lenk] == ser_string(s2)[2 + lenk]);
            assert(ser_string(s2)[2 + lenk] == esc_seq(s2)[lenk + 1]);
        }
        assert(s2.take(k + 1) =~= s2.take(k) + seq![s2[k]]);
        lemma_esc_append(s2.take(k), seq![s2[k]]);
        lemma_esc_single(s2[k]);
    } else {
        assert(s2.skip(k).len() == 0);
        assert(esc_seq(s2.skip(k)) =~= Seq::<char>::empty());
        assert(lenk == esc_seq(s2).len());
        assert(v.subrange(i, i + ll)[1 + lenk] == ser_string(s2)[1 + lenk]);
        assert(ser_string(s2)[1 + lenk] == '"');
    }
}

/// Reads a quoted, escaped string; succeeds on exactly the text `str_at`
/// describes, returning that string.
fn parse_string(v: &Vec<char>, i: usize) -> (r: Option<(String, usize)>)
    requires
        i <= v@.len(),
    ensures
        match r {
            Some(p) => {
                &&& i < p.1 <= v@.len()
                &&& v@.subrange(i as int, p.1 as int) == ser_string(p.0@)
            },
            None => true,
        },
        forall|s2: Seq<char>|
            str_at(v@, i as int, s2) ==> (r matches Some(p) && p.0@ == s2 && p.1 == i
                + ser_string(s2).len()),
{
    let n = v.len();
    proof {
        assert forall|s2: Seq<char>| str_at(v@, i as int, s2) implies i < n && v@[i as int]
            == '"' by {
            assert(v@.subrange(i as int, i + ser_string(s2).len())[0] == ser_string(s2)[0]);
        }
    }
    if i >= n || v[i] != '"' {
        return None;
    }
    let mut out: Vec<char> = Vec::new();
    let mut pos: usize = i + 1;
    loop
        invariant
            i + 1 <= pos <= n,
            n == v@.len(),
            v@[i as int] == '"',
            v@.subrange((i + 1) as int, pos as int) == esc_seq(out@),
            forall|s2: Seq<char>|
                str_at(v@, i as int, s2) ==> (out@.len() <= s2.len() && out@ == s2.take(
                    out@.len() as int,
                ) && pos == i + 1 + esc_seq(s2.take(out@.len() as int)).len()),
        decreases n - pos,
    {
        let ghost k = out@.len() as int;
        if pos >= n {
            proof {
                assert forall|s2: Seq<char>| str_at(v@, i as int, s2) implies false by {
                    lemma_str_at_char(v@, i as int, s2, k);
                    if k < s2.len() {
                        lemma_str_at_char(v@, i as int, s2, k + 1);
                    }
                }
            }
            return None;
        }
        let c = v[pos];
        if c == '"' {
            proof {
                assert(v@.subrange(i as int, (pos + 1) as int) =~= seq!['"'] + esc_seq(out@)
                    + seq!['"']);
                assert forall|s2: Seq<char>| str_at(v@, i as int, s2) implies out@ == s2 && pos
                    + 1 == i + ser_string(s2).len() by {
                    lemma_str_at_char(v@, i as int, s2, k);
                    if k < s2.len() {
                        assert(v@[pos as int] == esc_char(s2[k])[0]);
                        assert(false);
                    }
                    assert(s2.take(k) =~= s2);
                }
            }
            let s = string_from_chars(&out);
            return Some((s, pos + 1));
        }
        if c == '\\' {
            if pos + 1 >= n {
                proof {
                    assert forall|s2: Seq<char>| str_at(v@, i as int, s2) implies false by {
                        lemma_str_at_char(v@, i as int, s2, k);
                        if k == s2.len() {
                            assert(v@[pos as int] == '"');
                        } else {
                            if s2[k] != '"' && s2[k] != '\\' {
                                assert(v@[pos as int] == esc_char(s2[k])[0]);
                                assert(esc_char(s2[k])[0] == s2[k]);
                            }
                            lemma_str_at_char(v@, i as int, s2, k + 1);
                            assert(esc_char(s2[k]).len() == 2);
                        }
                    }
                }
                return None;
            }
            let c2 = v[pos + 1];
            if c2 == '"' || c2 == '\\' {
                let ghost prev = out@;
                out.push(c2);
                proof {
                    assert(out@ =~= prev + seq![c2]);
                    lemma_esc_append(prev, seq![c2]);
                    lemma_esc_single(c2);
                    assert(esc_seq(out@) == esc_seq(prev) + esc_char(c2));
                    assert(esc_seq(prev).len() == pos - (i + 1));
                    assert(v@[pos as int] == '\\');
                    assert(v@[pos + 1 as int] == c2);
                    assert(esc_char(c2) =~= seq!['\\', c2]);
                    assert(v@.subrange((i + 1) as int, (pos + 2) as int) =~= esc_seq(prev)
                        + esc_char(c2));
                    assert forall|s2: Seq<char>|
                        str_at(v@, i as int, s2) implies out@.len() <= s2.len() && out@
                        == s2.take(out@.len() as int) && pos + 2 == i + 1 + esc_seq(
                        s2.take(out@.len() as int),
                    ).len() by {
                        lemma_str_at_char(v@, i as int, s2, k);
                        assert(prev == s2.take(k));
                        if k == s2.len() {
                            assert(v@[pos as int] == '"');
                            assert(false);
                        }
                        if s2[k] != '"' && s2[k] != '\\' {
                            assert(v@[pos as int] == esc_char(s2[k])[0]);
                            assert(esc_char(s2[k])[0] == s2[k]);
                            assert(false);
                        }
                        assert(v@[pos + 1 as int] == s2[k]);
                        assert(c2 == s2[k]);
                        assert(s2.take(k + 1) =~= s2.take(k) + seq![s2[k]]);
                        assert(out@ =~= s2.take(k + 1));
                        assert(esc_seq(s2.take(k + 1)) == esc_seq(s2.take(k)) + esc_char(
                            s2[k],
                        ));
                        assert(esc_char(s2[k]).len() == 2);
                    }
                }
                pos = pos + 2;
            } else {
                proof {
                    assert forall|s2: Seq<char>| str_at(v@, i as int, s2) implies false by {
                        lemma_str_at_char(v@, i as int, s2, k);
                        if k == s2.len() {
                            assert(v@[pos as int] == '"');
                        } else {
                            if s2[k] != '"' && s2[k] != '\\' {
                                assert(v@[pos as int] == esc_char(s2[k])[0]);
                                assert(esc_char(s2[k])[0] == s2[k]);
                            }
                            assert(v@[pos + 1 as int] == s2[k]);
                        }
                    }
                }
                return None;
            }
        } else {
            let ghost prev = out@;
            out.push(c);
            proof {
                assert(out@ =~= prev + seq![c]);
                lemma_esc_append(prev, seq![c]);
                lemma_esc_single(c);
                assert(esc_seq(out@) == esc_seq(prev) + esc_char(c));
                assert(esc_seq(prev).len() == pos - (i + 1));
                assert(esc_char(c) =~= seq![c]);
                assert(v@.subrange((i + 1) as int, (pos + 1) as int) =~= esc_seq(prev)
                    + esc_char(c));
                assert forall|s2: Seq<char>|
                    str_at(v@, i as int, s2) implies out@.len() <= s2.len() && out@ == s2.take(
                    out@.len() as int,
                ) && pos + 1 == i + 1 + esc_seq(s2.take(out@.len() as int)).len() by {
                    lemma_str_at_char(v@, i as int, s2, k);
                    assert(prev == s2.take(k));
                    if k == s2.len() {
                        assert(v@[pos as int] == '"');
                        assert(false);
                    }
                    assert(v@[pos as int] == esc_char(s2[k])[0]);
                    if s2[k] == '"' || s2[k] == '\\' {
                        assert(esc_char(s2[k])[0] == '\\');
                        assert(false);
                    }
                    assert(esc_char(s2[k])[0] == s2[k]);
                    assert(c == s2[k]);
                    assert(s2.take(k + 1) =~= s2.take(k) + seq![s2[k]]);
                    assert(out@ =~= s2.take(k + 1));
                    assert(esc_seq(s2.take(k + 1)) == esc_seq(s2.take(k)) + esc_char(s2[k]));
                    assert(esc_char(s2[k]).len() == 1);
                }
            }
            pos = pos + 1;
        }
    }
}

/// A piece of a known stretch of text stands where the stretch puts it.
proof fn lemma_piece(v: Seq<char>, i: int, whole: Seq<char>, off: int, piece: Seq<char>)
    requires
        0 <= i,
        i + whole.len() <= v.len(),
        v.subrange(i, i + whole.len()) == whole,
        0 <= off,
        off + piece.len() <= whole.len(),
        whole.subrange(off, off + piece.len()) == piece,
    ensures
        v.subrange(i + off, i + off + piece.len()) == piece,
{
    assert forall|t: int| 0 <= t < piece.len() implies v.subrange(
        i + off,
        i + off + piece.len(),
    )[t] == piece[t] by {
        assert(v.subrange(i, i + whole.len())[off + t] == whole[off + t]);
        assert(whole.subrange(off, off + piece.len())[t] == piece[t]);
    }
    assert(v.subrange(i + off, i + off + piece.len()) =~= piece);
}

/// The text of the binding `b` stands at `i`.
pub open spec fn binding_at(v: Seq<char>, i: int, b: Binding) -> bool {
    &&& 0 <= i
    &&& i + ser_binding(b).len() <= v.len()
    &&& v.subrange(i, i + ser_binding(b).len()) == ser_binding(b)
}

/// Reads one binding object; succeeds on exactly the text `binding_at`
/// describes, returning that binding.
#[verifier::rlimit(100)]
fn parse_binding(v: &Vec<char>, i: usize) -> (r: Option<(Binding, usize)>)
    requires
        i <= v@.len(),
    ensures
        match r {
            Some(p) => {
                &&& i < p.1 <= v@.len()
                &&& v@.subrange(i as int, p.1 as int) == ser_binding(p.0)
            },
            None => true,
        },
        forall|b2: Binding|
            binding_at(v@, i as int, b2) ==> (r matches Some(p) && p.0 == b2 && p.1 == i
                + ser_binding(b2).len()),
{
    proof {
        reveal_strlit("{\"coords\":[");
        reveal_strlit(",");
        reveal_strlit("],\"click_type\":");
        reveal_strlit("}");
        let gi = i as int;
        let l0 = "{\"coords\":["@.len() as int;
        let l2 = "],\"click_type\":"@.len() as int;
        assert forall|b2: Binding| binding_at(v@, gi, b2) implies {
            let w = ser_binding(b2);
            let sx = ser_i32(b2.x as int);
            let sy = ser_i32(b2.y as int);
            let sk = ser_click(b2.click_type);
            let ox = l0;
            let oy = ox + sx.len() + 1;
            let ok = oy + sy.len() + l2;
            &&& v@.subrange(gi, gi + l0) == "{\"coords\":["@
            &&& i32_at(v@, gi + ox, b2.x)
            &&& v@.subrange(gi + ox + sx.len(), gi + ox + sx.len() + 1) == ","@
            &&& i32_at(v@, gi + oy, b2.y)
            &&& v@.subrange(gi + oy + sy.len(), gi + oy + sy.len() + l2) == "],\"click_type\":"@
            &&& click_at(v@, gi + ok, b2.click_type)
            &&& v@.subrange(gi + ok + sk.len(), gi + ok + sk.len() + 1) == "}"@
        } by {
            let w = ser_binding(b2);
            let sx = ser_i32(b2.x as int);
            let sy = ser_i32(b2.y as int);
            let sk = ser_click(b2.click_type);
            let ox = l0;
            let oy = ox + sx.len() + 1;
            let ok = oy + sy.len() + l2;
            assert(w.subrange(0, l0) =~= "{\"coords\":["@);
            lemma_piece(v@, gi, w, 0, "{\"coords\":["@);
            assert(w.subrange(ox, ox + sx.len()) =~= sx);
            lemma_piece(v@, gi, w, ox, sx);
            assert(w.subrange(ox + sx.len(), ox + sx.len() + 1) =~= ","@);
            lemma_piece(v@, gi, w, ox + sx.len(), ","@);
            assert(w.subrange(oy, oy + sy.len()) =~= sy);
            lemma_piece(v@, gi, w, oy, sy);
            assert(w.subrange(oy + sy.len(), oy + sy.len() + l2) =~= "],\"click_type\":"@);
            lemma_piece(v@, gi, w, oy + sy.len(), "],\"click_type\":"@);
            assert(w.subrange(ok, ok + sk.len()) =~= sk);
            lemma_piece(v@, gi, w, ok, sk);
            assert(w.subrange(ok + sk.len(), ok + sk.len() + 1) =~= "}"@);
            lemma_piece(v@, gi, w, ok + sk.len(), "}"@);
            assert(v@.subrange(gi + ox + sx.len(), gi + ox + sx.len() + 1)[0] == ","@[0]);
            assert(v@[gi + ox + sx.len()] == ',');
            assert(v@.subrange(gi + oy + sy.len(), gi + oy + sy.len() + l2)[0]
                == "],\"click_type\":"@[0]);
            assert(v@[gi + oy + sy.len()] == ']');
        }
    }
{
    let a = match expect_lit(v, i, "{\"coords\":[") {
        Some(a) => a,
        None => {
            return None;
        },
    };
    let (x, b) = match parse_i32(v, a) {
        Some(p) => p,
        None => {
            return None;
        },
    };
    let c = match expect_lit(v, b, ",") {
        Some(c) => c,
        None => {
            return None;
        },
    };
    let (y, d) = match parse_i32(v, c) {
        Some(p) => p,
        None => {
            return None;
        },
    };
    let e = match expect_lit(v, d, "],\"click_type\":") {
        Some(e) => e,
        None => {
            return None;
        },
    };
    let (k, f) = match parse_click(v, e) {
        Some(p) => p,
        None => {
            return None;
        },
    };
    let g = match expect_lit(v, f, "}") {
        Some(g) => g,
        None => {
            return None;
        },
    };
    let bind = Binding { x, y, click_type: k };
    proof {
        reveal_strlit(",");
        reveal_strlit("}");
        lemma_subrange_concat(v@, i as int, a as int, g as int);
        lemma_subrange_concat(v@, a as int, b as int, g as int);
        lemma_subrange_concat(v@, b as int, c as int, g as int);
        lemma_subrange_concat(v@, c as int, d as int, g as int);
        lemma_subrange_concat(v@, d as int, e as int, g as int);
        lemma_subrange_concat(v@, e as int, f as int, g as int);
        assert(v@.subrange(i as int, g as int) =~= ser_binding(bind));
    }
    Some((bind, g))
}
}

/// The text of the custom entry `cb` stands at `i`.
pub open spec fn custom_at(v: Seq<char>, i: int, cb: CustomBinding) -> bool {
    &&& 0 <= i
    &&& i + ser_custom(cb).len() <= v.len()
    &&& v.subrange(i, i + ser_custom(cb).len()) == ser_custom(cb)
}

/// Reads one custom entry object; succeeds on exactly the text `custom_at`
/// describes. The returned entry equals the one serialized there.
#[verifier::rlimit(100)]
fn parse_custom(v: &Vec<char>, i: usize) -> (r: Option<(CustomBinding, usize)>)
    requires
        i <= v@.len(),
    ensures
        match r {
            Some(p) => {
                &&& i < p.1 <= v@.len()
                &&& v@.subrange(i as int, p.1 as int) == ser_custom(p.0)
            },
            None => true,
        },
        forall|cb2: CustomBinding|
            custom_at(v@, i as int, cb2) ==> (r matches Some(p) && p.0.name@ == cb2.name@
                && p.0.binding == cb2.binding && p.1 == i + ser_custom(cb2).len()),
{
    proof {
        let gi = i as int;
        let l0 = "{\"name\":"@.len() as int;
        let l1 = ",\"binding\":"@.len() as int;
        assert forall|cb2: CustomBinding| custom_at(v@, gi, cb2) implies {
            let w = ser_custom(cb2);
            let sn = ser_string(cb2.name@);
            let sb = ser_binding(cb2.binding);
            let on = l0;
            let ob = on + sn.len() + l1;
            &&& v@.subrange(gi, gi + l0) == "{\"name\":"@
            &&& str_at(v@, gi + on, cb2.name@)
            &&& v@.subrange(gi + on + sn.len(), gi + on + sn.len() + l1) == ",\"binding\":"@
            &&& binding_at(v@, gi + ob, cb2.binding)
            &&& v@.subrange(gi + ob + sb.len(), gi + ob + sb.len() + 1) == "}"@
        } by {
            reveal_strlit("}");
            let w = ser_custom(cb2);
            let sn = ser_string(cb2.name@);
            let sb = ser_binding(cb2.binding);
            let on = l0;
            let ob = on + sn.len() + l1;
            assert(w.subrange(0, l0) =~= "{\"name\":"@);
            lemma_piece(v@, gi, w, 0, "{\"name\":"@);
            assert(w.subrange(on, on + sn.len()) =~= sn);
            lemma_piece(v@, gi, w, on, sn);
            assert(w.subrange(on + sn.len(), on + sn.len() + l1) =~= ",\"binding\":"@);
            lemma_piece(v@, gi, w, on + sn.len(), ",\"binding\":"@);
            assert(w.subrange(ob, ob + sb.len()) =~= sb);
            lemma_piece(v@, gi, w, ob, sb);
            assert(w.subrange(ob + sb.len(), ob + sb.len() + 1) =~= "}"@);
            lemma_piece(v@, gi, w, ob + sb.len(), "}"@);
        }
    }
{
    let a = match expect_lit(v, i, "{\"name\":") {
        Some(a) => a,
        None => {
            return None;
        },
    };
    let (name, b) = match parse_string(v, a) {
        Some(p) => p,
        None => {
            return None;
        },
    };
    let c = match expect_lit(v, b, ",\"binding\":") {
        Some(c) => c,
        None => {
            return None;
        },
    };
    let (bind, d) = match parse_binding(v, c) {
        Some(p) => p,
        None => {
            return None;
        },
    };
    let e = match expect_lit(v, d, "}") {
        Some(e) => e,
        None => {
            return None;
        },
    };
    let cb = CustomBinding { name, binding: bind };
    proof {
        reveal_strlit("}");
        lemma_subrange_concat(v@, i as int, a as int, e as int);
        lemma_subrange_concat(v@, a as int, b as int, e as int);
        lemma_subrange_concat(v@, b as int, c as int, e as int);
        lemma_subrange_concat(v@, c as int, d as int, e as int);
        assert(v@.subrange(i as int, e as int) =~= ser_custom(cb));
    }
    Some((cb, e))
}
}

/// A joined list splits at any interior point around a separator.
proof fn lemma_ser_join_split(items: Seq<Seq<char>>, k: int)
    requires
        0 < k < items.len(),
    ensures
        ser_join(items) == ser_join(items.take(k)) + seq![','] + ser_join(items.skip(k)),
    decreases k,
{
    if k == 1 {
        assert(items.take(1) =~= seq![items[0]]);
        assert(ser_join(items.take(1)) == items[0]);
        assert(ser_join(items) == items[0] + seq![','] + ser_join(items.skip(1)));
    } else {
        let rest = items.skip(1);
        lemma_ser_join_split(rest, k - 1);
        assert(rest.take(k - 1) =~= items.take(k).skip(1));
        assert(rest.skip(k - 1) =~= items.skip(k));
        assert(items.take(k).len() >= 2);
        assert(ser_join(items.take(k)) == items.take(k)[0] + seq![','] + ser_join(
            items.take(k).skip(1),
        ));
        assert(items.take(k)[0] == items[0]);
        assert(ser_join(items) == items[0] + seq![','] + ser_join(rest));
        assert(ser_join(items) =~= ser_join(items.take(k)) + seq![','] + ser_join(
            items.skip(k),
        ));
    }
}

/// Where the `k`-th item of a joined list stands: after the join of the
/// first `k` items, past a separator for every item but the first.
proof fn lemma_join_item_at(v: Seq<char>, i: int, items: Seq<Seq<char>>, k: int, pos: int)
    requires
        0 <= i,
        i + ser_join(items).len() <= v.len(),
        v.subrange(i, i + ser_join(items).len()) == ser_join(items),
        0 <= k < items.len(),
        pos == i + ser_join(items.take(k)).len(),
    ensures
        k > 0 ==> v[pos] == ',',
        pos + (if k > 0 { 1int } else { 0int }) + items[k].len() <= i + ser_join(items).len(),
        v.subrange(
            pos + (if k > 0 { 1int } else { 0int }),
            pos + (if k > 0 { 1int } else { 0int }) + items[k].len(),
        ) == items[k],
{
    let w = ser_join(items);
    if k == 0 {
        assert(items.take(0) =~= Seq::<Seq<char>>::empty());
        assert(ser_join(items.take(0)) =~= Seq::<char>::empty());
        if items.len() == 1 {
            assert(w == items[0]);
        } else {
            assert(w == items[0] + seq![','] + ser_join(items.skip(1)));
        }
        assert(w.subrange(0, items[0].len() as int) =~= items[0]);
        lemma_piece(v, i, w, 0, items[0]);
    } else {
        lemma_ser_join_split(items, k);
        let jk = ser_join(items.take(k)).len() as int;
        let tail = ser_join(items.skip(k));
        assert(w == ser_join(items.take(k)) + seq![','] + tail);
        assert(w.subrange(jk, jk + 1) =~= seq![',']);
        lemma_piece(v, i, w, jk, seq![',']);
        assert(v.subrange(pos, pos + 1)[0] == ',');
        assert(items.skip(k)[0] == items[k]);
        if items.skip(k).len() == 1 {
            assert(tail == items[k]);
        } else {
            assert(tail == items[k] + seq![','] + ser_join(items.skip(k).skip(1)));
        }
        assert(w.subrange(jk + 1, jk + 1 + items[k].len()) =~= items[k]);
        lemma_piece(v, i, w, jk + 1, items[k]);
    }
}

/// The text of the nine-slot dialog list stands at `i`.
pub open spec fn dialogs_at(v: Seq<char>, i: int, ds: Seq<Binding>) -> bool {
    let w = ser_join(ds.map_values(|b: Binding| ser_binding(b)));
    &&& ds.len() == 9
    &&& 0 <= i
    &&& i + w.len() <= v.len()
    &&& v.subrange(i, i + w.len()) == w
}

/// Reads the nine comma-separated dialog bindings; succeeds on exactly the
/// text `dialogs_at` describes, returning those bindings.
#[verifier::rlimit(100)]
fn parse_dialogs(v: &Vec<char>, i: usize) -> (r: Option<(Vec<Binding>, usize)>)
    requires
        i <= v@.len(),
    ensures
        match r {
            Some(p) => {
                &&& i <= p.1 <= v@.len()
                &&& p.0@.len() == 9
                &&& v@.subrange(i as int, p.1 as int) == ser_join(
                    p.0@.map_values(|b: Binding| ser_binding(b)),
                )
            },
            None => true,
        },
        forall|ds: Seq<Binding>|
            dialogs_at(v@, i as int, ds) ==> (r matches Some(p) && p.0@ == ds && p.1 == i
                + ser_join(ds.map_values(|b: Binding| ser_binding(b))).len()),
{
    let mut out: Vec<Binding> = Vec::new();
    let mut pos: usize = i;
    let mut k: usize = 0;
    while k < 9
        invariant
            k <= 9,
            i <= pos <= v@.len(),
            out@.len() == k,
            v@.subrange(i as int, pos as int) == ser_join(
                out@.map_values(|b: Binding| ser_binding(b)),
            ),
            forall|ds: Seq<Binding>|
                dialogs_at(v@, i as int, ds) ==> (out@ == ds.take(k as int) && pos == i
                    + ser_join(
                    ds.map_values(|b: Binding| ser_binding(b)).take(k as int),
                ).len()),
        decreases 9 - k,
    {
        let ghost gk = k as int;
        proof {
            assert forall|ds: Seq<Binding>| dialogs_at(v@, i as int, ds) implies {
                let mds = ds.map_values(|b: Binding| ser_binding(b));
                let q = pos + (if gk > 0 { 1int } else { 0int });
                &&& (gk > 0 ==> v@[pos as int] == ',')
                &&& binding_at(v@, q, ds[gk])
            } by {
                let mds = ds.map_values(|b: Binding| ser_binding(b));
                lemma_join_item_at(v@, i as int, mds, gk, pos as int);
            }
        }
        if k > 0 {
            if pos >= v.len() || v[pos] != ',' {
                return None;
            }
            pos = pos + 1;
        }
        let (b, p) = match parse_binding(v, pos) {
            Some(q) => q,
            None => {
                return None;
            },
        };
        proof {
            let items0 = out@.map_values(|bb: Binding| ser_binding(bb));
            let items1 = out@.push(b).map_values(|bb: Binding| ser_binding(bb));
            assert(items1.take(k as int) =~= items0);
            assert(items1.take(k + 1 as int) =~= items1);
            lemma_ser_join_snoc(items1, k as int);
            if k > 0 {
                assert(v@.subrange(i as int, p as int) =~= ser_join(items0) + seq![',']
                    + ser_binding(b));
            } else {
                assert(v@.subrange(i as int, p as int) =~= ser_join(items0) + ser_binding(b));
                assert(ser_join(items0) =~= Seq::<char>::empty()) by {
                    assert(out@.map_values(|bb: Binding| ser_binding(bb)).len() == 0);
                }
            }
            assert forall|ds: Seq<Binding>| dialogs_at(v@, i as int, ds) implies (out@.push(b)
                == ds.take(gk + 1) && p == i + ser_join(
                ds.map_values(|bb: Binding| ser_binding(bb)).take(gk + 1),
            ).len()) by {
                let mds = ds.map_values(|bb: Binding| ser_binding(bb));
                assert(b == ds[gk]);
                assert(out@.push(b) =~= ds.take(gk + 1));
                lemma_ser_join_snoc(mds, gk);
                assert(mds.take(gk) =~= ds.take(gk).map_values(
                    |bb: Binding| ser_binding(bb),
                ));
                assert(ser_join(mds.take(gk)).len() == ser_join(
                    ds.map_values(|bb: Binding| ser_binding(bb)).take(gk),
                ).len());
            }
        }
        out.push(b);
        pos = p;
        k = k + 1;
    }
    proof {
        assert forall|ds: Seq<Binding>| dialogs_at(v@, i as int, ds) implies (out@ == ds && pos
            == i + ser_join(ds.map_values(|b: Binding| ser_binding(b))).len()) by {
            assert(ds.take(9) =~= ds);
            assert(ds.map_values(|b: Binding| ser_binding(b)).take(9) =~= ds.map_values(
                |b: Binding| ser_binding(b),
            ));
        }
    }
    Some((out, pos))
}

/// Same entries: equal bindings and, character for character, equal names.
pub open spec fn customs_like(a: Seq<CustomBinding>, b: Seq<CustomBinding>) -> bool {
    &&& a.len() == b.len()
    &&& forall|j: int|
        0 <= j < a.len() ==> (#[trigger] a[j]).name@ == b[j].name@ && a[j].binding == b[j].binding
}

/// The text of the custom list stands at `i`, followed by the closing
/// bracket.
pub open spec fn customs_at(v: Seq<char>, i: int, cs: Seq<CustomBinding>) -> bool {
    let w = ser_join(cs.map_values(|cb: CustomBinding| ser_custom(cb)));
    &&& 0 <= i
    &&& i + w.len() < v.len()
    &&& v.subrange(i, i + w.len()) == w
    &&& v[i + w.len()] == ']'
}

/// Reads the comma-separated custom entries, up to (not including) the
/// closing bracket; on the text `customs_at` describes it reads exactly the
/// entries serialized there.
#[verifier::rlimit(100)]
fn parse_customs(v: &Vec<char>, i: usize) -> (r: Option<(Vec<CustomBinding>, usize)>)
    requires
        i <= v@.len(),
    ensures
        match r {
            Some(p) => {
                &&& i <= p.1 <= v@.len()
                &&& v@.subrange(i as int, p.1 as int) == ser_join(
                    p.0@.map_values(|cb: CustomBinding| ser_custom(cb)),
                )
            },
            None => true,
        },
        forall|cs: Seq<CustomBinding>|
            customs_at(v@, i as int, cs) ==> (r matches Some(p) && customs_like(p.0@, cs) && p.1
                == i + ser_join(cs.map_values(|cb: CustomBinding| ser_custom(cb))).len()),
{
    let mut out: Vec<CustomBinding> = Vec::new();
    let mut pos: usize = i;
    proof {
        assert forall|cs: Seq<CustomBinding>|
            customs_at(v@, i as int, cs) && cs.len() > 0 implies custom_at(
            v@,
            i as int,
            cs[0],
        ) && v@[i as int] != ']' by {
            let mcs = cs.map_values(|cb: CustomBinding| ser_custom(cb));
            assert(mcs.take(0) =~= Seq::<Seq<char>>::empty());
            assert(ser_join(mcs.take(0)) =~= Seq::<char>::empty());
            lemma_join_item_at(v@, i as int, mcs, 0, i as int);
            reveal_strlit("{\"name\":");
            let w0 = ser_custom(cs[0]);
            assert(w0[0] == "{\"name\":"@[0]);
            assert(v@.subrange(i as int, i + w0.len())[0] == w0[0]);
        }
    }
    if pos >= v.len() || v[pos] == ']' {
        proof {
            assert(v@.subrange(i as int, i as int) =~= ser_join(
                out@.map_values(|cb: CustomBinding| ser_custom(cb)),
            )) by {
                assert(out@.map_values(|cb: CustomBinding| ser_custom(cb)).len() == 0);
            }
            assert forall|cs: Seq<CustomBinding>| customs_at(v@, i as int, cs) implies cs.len()
                == 0 by {
                if cs.len() > 0 {
                    assert(v@[i as int] != ']');
                    let w = ser_join(cs.map_values(|cb: CustomBinding| ser_custom(cb)));
                    assert(i + w.len() < v@.len());
                }
            }
        }
        return Some((out, pos));
    }
    let (first, p0) = match parse_custom(v, pos) {
        Some(q) => q,
        None => {
            return None;
        },
    };
    proof {
        let items1 = out@.push(first).map_values(|cb: CustomBinding| ser_custom(cb));
        assert(items1 =~= seq![ser_custom(first)]);
        assert(ser_join(items1) == ser_custom(first));
    }
    out.push(first);
    pos = p0;
    while pos < v.len() && v[pos] == ','
        invariant
            i <= pos <= v@.len(),
            out@.len() >= 1,
            v@.subrange(i as int, pos as int) == ser_join(
                out@.map_values(|cb: CustomBinding| ser_custom(cb)),
            ),
            forall|cs: Seq<CustomBinding>|
                customs_at(v@, i as int, cs) ==> (out@.len() <= cs.len() && customs_like(
                    out@,
                    cs.take(out@.len() as int),
                ) && pos == i + ser_join(
                    cs.map_values(|cb: CustomBinding| ser_custom(cb)).take(out@.len() as int),
                ).len()),
        decreases v@.len() - pos,
    {
        let ghost gk = out@.len() as int;
        proof {
            assert forall|cs: Seq<CustomBinding>| customs_at(v@, i as int, cs) implies gk
                < cs.len() && custom_at(v@, pos + 1 as int, cs[gk]) by {
                let mcs = cs.map_values(|cb: CustomBinding| ser_custom(cb));
                assert(out@.map_values(|cb: CustomBinding| ser_custom(cb)) =~= mcs.take(gk));
                if gk == cs.len() {
                    assert(mcs.take(gk) =~= mcs);
                    assert(v@[pos as int] == ']');
                }
                lemma_join_item_at(v@, i as int, mcs, gk, pos as int);
            }
        }
        let (cb, p) = match parse_custom(v, pos + 1) {
            Some(q) => q,
            None => {
                return None;
            },
        };
        proof {
            let k = out@.len() as int;
            let items0 = out@.map_values(|c2: CustomBinding| ser_custom(c2));
            let items1 = out@.push(cb).map_values(|c2: CustomBinding| ser_custom(c2));
            assert(items1.take(k) =~= items0);
            assert(items1.take(k + 1) =~= items1);
            lemma_ser_join_snoc(items1, k);
            assert(v@.subrange(i as int, p as int) =~= ser_join(items0) + seq![',']
                + ser_custom(cb));
            assert forall|cs: Seq<CustomBinding>| customs_at(v@, i as int, cs) implies (out@.push(
                cb,
            ).len() <= cs.len() && customs_like(out@.push(cb), cs.take(gk + 1)) && p == i
                + ser_join(
                cs.map_values(|c2: CustomBinding| ser_custom(c2)).take(gk + 1),
            ).len()) by {
                let mcs = cs.map_values(|c2: CustomBinding| ser_custom(c2));
                assert(cb.name@ == cs[gk].name@ && cb.binding == cs[gk].binding);
                assert(ser_custom(cb) == ser_custom(cs[gk]));
                lemma_ser_join_snoc(mcs, gk);
                assert(ser_join(items0).len() == ser_join(mcs.take(gk)).len());
            }
        }
        out.push(cb);
        pos = p;
    }
    proof {
        assert forall|cs: Seq<CustomBinding>| #[trigger] customs_at(v@, i as int, cs) implies (
        customs_like(out@, cs) && pos == i + ser_join(
            cs.map_values(|cb: CustomBinding| ser_custom(cb)),
        ).len()) by {
            let mcs = cs.map_values(|cb: CustomBinding| ser_custom(cb));
            if out@.len() < cs.len() {
                lemma_join_item_at(v@, i as int, mcs, out@.len() as int, pos as int);
                reveal_strlit("{\"name\":");
                let q = pos + (if out@.len() > 0 { 1int } else { 0int });
                let w0 = ser_custom(cs[out@.len() as int]);
                assert(v@.subrange(q, q + w0.len())[0] == w0[0]);
                assert(w0[0] == "{\"name\":"@[0]);
                assert(v@[pos as int] == ',');
                assert(pos < v@.len());
            }
            assert(out@.len() == cs.len());
            assert(cs.take(cs.len() as int) =~= cs);
            assert(mcs.take(cs.len() as int) =~= mcs);
        }
    }
    Some((out, pos))
}

/// Same configuration content: equal slots and counter, and custom entries
/// equal up to the characters of their names.
pub open spec fn config_like(a: Config, b: Config) -> bool {
    &&& a.dialogs@ == b.dialogs@
    &&& a.yes == b.yes
    &&& a.no == b.no
    &&& customs_like(a.custom@, b.custom@)
    &&& a.next_custom_id == b.next_custom_id
}

/// Name uniqueness and non-emptiness only read the names' characters, so
/// they carry across `customs_like`.
proof fn lemma_customs_like_names(a: Seq<CustomBinding>, b: Seq<CustomBinding>)
    requires
        customs_like(a, b),
    ensures
        names_unique(a) <==> names_unique(b),
        names_nonempty(a) <==> names_nonempty(b),
{
    if names_unique(a) {
        assert forall|p: int, q: int| 0 <= p < q < b.len() implies b[p].name@ != b[q].name@ by {
            assert(a[p].name@ != a[q].name@);
        }
    }
    if names_unique(b) {
        assert forall|p: int, q: int| 0 <= p < q < a.len() implies a[p].name@ != a[q].name@ by {
            assert(b[p].name@ != b[q].name@);
        }
    }
    if names_nonempty(a) {
        assert forall|p: int| 0 <= p < b.len() implies b[p].name@.len() > 0 by {
            assert(a[p].name@.len() > 0);
        }
    }
    if names_nonempty(b) {
        assert forall|p: int| 0 <= p < a.len() implies a[p].name@.len() > 0 by {
            assert(b[p].name@.len() > 0);
        }
    }
}

/// Where each piece of a configuration's text stands in it.
#[verifier::rlimit(100)]
proof fn lemma_config_pieces(v: Seq<char>, c: Config)
    requires
        c.dialogs@.len() == 9,
        v == ser_config(c),
    ensures
        ({
            let l0 = "{\"dialogs\":["@.len() as int;
            let l1 = "],\"yes\":"@.len() as int;
            let l2 = ",\"no\":"@.len() as int;
            let l3 = ",\"custom\":["@.len() as int;
            let l4 = "],\"next_custom_id\":"@.len() as int;
            let jd = ser_join(c.dialogs@.map_values(|b: Binding| ser_binding(b)));
            let jc = ser_join(c.custom@.map_values(|cb: CustomBinding| ser_custom(cb)));
            let sy = ser_binding(c.yes);
            let sn = ser_binding(c.no);
            let dd = dec_digits(c.next_custom_id as nat);
            let oa = l0;
            let ob = oa + jd.len();
            let oc = ob + l1;
            let od = oc + sy.len();
            let oe = od + l2;
            let of_ = oe + sn.len();
            let og = of_ + l3;
            let oh = og + jc.len();
            let om = oh + l4;
            let op = om + dd.len();
            &&& v.len() == op + 1
            &&& v.subrange(0, l0) == "{\"dialogs\":["@
            &&& dialogs_at(v, oa, c.dialogs@)
            &&& v.subrange(ob, oc) == "],\"yes\":"@
            &&& binding_at(v, oc, c.yes)
            &&& v.subrange(od, oe) == ",\"no\":"@
            &&& binding_at(v, oe, c.no)
            &&& v.subrange(of_, og) == ",\"custom\":["@
            &&& customs_at(v, og, c.custom@)
            &&& v.subrange(oh, om) == "],\"next_custom_id\":"@
            &&& num_at(v, om, c.next_custom_id)
            &&& v.subrange(op, op + 1) == "}"@
        }),
{
    reveal_strlit("],\"next_custom_id\":");
    reveal_strlit("}");
    let l0 = "{\"dialogs\":["@.len() as int;
    let l1 = "],\"yes\":"@.len() as int;
    let l2 = ",\"no\":"@.len() as int;
    let l3 = ",\"custom\":["@.len() as int;
    let l4 = "],\"next_custom_id\":"@.len() as int;
    let jd = ser_join(c.dialogs@.map_values(|b: Binding| ser_binding(b)));
    let jc = ser_join(c.custom@.map_values(|cb: CustomBinding| ser_custom(cb)));
    let sy = ser_binding(c.yes);
    let sn = ser_binding(c.no);
    let dd = dec_digits(c.next_custom_id as nat);
    let oa = l0;
    let ob = oa + jd.len();
    let oc = ob + l1;
    let od = oc + sy.len();
    let oe = od + l2;
    let of_ = oe + sn.len();
    let og = of_ + l3;
    let oh = og + jc.len();
    let om = oh + l4;
    let op = om + dd.len();
    let w = ser_config(c);
    assert(v.subrange(0, v.len() as int) =~= w);
    assert(w.subrange(0, l0) =~= "{\"dialogs\":["@);
    lemma_piece(v, 0, w, 0, "{\"dialogs\":["@);
    assert(w.subrange(oa, ob) =~= jd);
    lemma_piece(v, 0, w, oa, jd);
    assert(w.subrange(ob, oc) =~= "],\"yes\":"@);
    lemma_piece(v, 0, w, ob, "],\"yes\":"@);
    assert(w.subrange(oc, od) =~= sy);
    lemma_piece(v, 0, w, oc, sy);
    assert(w.subrange(od, oe) =~= ",\"no\":"@);
    lemma_piece(v, 0, w, od, ",\"no\":"@);
    assert(w.subrange(oe, of_) =~= sn);
    lemma_piece(v, 0, w, oe, sn);
    assert(w.subrange(of_, og) =~= ",\"custom\":["@);
    lemma_piece(v, 0, w, of_, ",\"custom\":["@);
    assert(w.subrange(og, oh) =~= jc);
    lemma_piece(v, 0, w, og, jc);
    assert(w.subrange(oh, om) =~= "],\"next_custom_id\":"@);
    lemma_piece(v, 0, w, oh, "],\"next_custom_id\":"@);
    assert(w.subrange(om, op) =~= dd);
    lemma_piece(v, 0, w, om, dd);
    assert(w.subrange(op, op + 1) =~= "}"@);
    lemma_piece(v, 0, w, op, "}"@);
    assert(v.subrange(oh, om)[0] == "],\"next_custom_id\":"@[0]);
    assert(v[oh] == ']');
    assert(v.subrange(op, op + 1)[0] == "}"@[0]);
    assert(v[op] == '}');
}

/// The frame of a configuration text: the pieces in order make the whole.
proof fn lemma_assemble_config(
    v: Seq<char>,
    a: int,
    b: int,
    c: int,
    d: int,
    e: int,
    f: int,
    g: int,
    h: int,
    m: int,
    p: int,
    q: int,
    cfg: Config,
)
    requires
        0 <= a <= b <= c <= d <= e <= f <= g <= h <= m <= p <= q <= v.len(),
        v.subrange(0, a) == "{\"dialogs\":["@,
        v.subrange(a, b) == ser_join(cfg.dialogs@.map_values(|bb: Binding| ser_binding(bb))),
        v.subrange(b, c) == "],\"yes\":"@,
        v.subrange(c, d) == ser_binding(cfg.yes),
        v.subrange(d, e) == ",\"no\":"@,
        v.subrange(e, f) == ser_binding(cfg.no),
        v.subrange(f, g) == ",\"custom\":["@,
        v.subrange(g, h) == ser_join(cfg.custom@.map_values(|cb: CustomBinding| ser_custom(cb))),
        v.subrange(h, m) == "],\"next_custom_id\":"@,
        v.subrange(m, p) == dec_digits(cfg.next_custom_id as nat),
        v.subrange(p, q) == seq!['}'],
        q == v.len(),
    ensures
        v == ser_config(cfg),
{
    lemma_subrange_concat(v, 0, a, b);
    lemma_subrange_concat(v, 0, b, c);
    lemma_subrange_concat(v, 0, c, d);
    lemma_subrange_concat(v, 0, d, e);
    lemma_subrange_concat(v, 0, e, f);
    lemma_subrange_concat(v, 0, f, g);
    lemma_subrange_concat(v, 0, g, h);
    lemma_subrange_concat(v, 0, h, m);
    lemma_subrange_concat(v, 0, m, p);
    lemma_subrange_concat(v, 0, p, q);
    assert(v.subrange(0, q) =~= v);
    assert(v == ser_config(cfg));
}

/// Parses canonical configuration text; accepts nothing else, and rejects a
/// configuration whose custom names are empty or duplicated.
#[verifier::rlimit(100)]
pub fn from_json(s: &str) -> (r: Option<Config>)
    ensures
        match r {
            Some(c) => c.wf() && s@ == ser_config(c),
            None => true,
        },
        forall|c: Config|
            c.wf() && s@ == ser_config(c) ==> (r matches Some(c2) && config_like(c2, c)),
{
    let v = chars_vec(s);
    proof {
        assert forall|c: Config| #![trigger ser_config(c)]
            c.wf() && v@ == ser_config(c) implies {
            let l0 = "{\"dialogs\":["@.len() as int;
            let l1 = "],\"yes\":"@.len() as int;
            let l2 = ",\"no\":"@.len() as int;
            let l3 = ",\"custom\":["@.len() as int;
            let l4 = "],\"next_custom_id\":"@.len() as int;
            let jd = ser_join(c.dialogs@.map_values(|b: Binding| ser_binding(b)));
            let jc = ser_join(c.custom@.map_values(|cb: CustomBinding| ser_custom(cb)));
            let sy = ser_binding(c.yes);
            let sn = ser_binding(c.no);
            let dd = dec_digits(c.next_custom_id as nat);
            let oa = l0;
            let ob = oa + jd.len();
            let oc = ob + l1;
            let od = oc + sy.len();
            let oe = od + l2;
            let of_ = oe + sn.len();
            let og = of_ + l3;
            let oh = og + jc.len();
            let om = oh + l4;
            let op = om + dd.len();
            &&& v@.len() == op + 1
            &&& v@.subrange(0, l0) == "{\"dialogs\":["@
            &&& dialogs_at(v@, oa, c.dialogs@)
            &&& v@.subrange(ob, oc) == "],\"yes\":"@
            &&& binding_at(v@, oc, c.yes)
            &&& v@.subrange(od, oe) == ",\"no\":"@
            &&& binding_at(v@, oe, c.no)
            &&& v@.subrange(of_, og) == ",\"custom\":["@
            &&& customs_at(v@, og, c.custom@)
            &&& v@.subrange(oh, om) == "],\"next_custom_id\":"@
            &&& num_at(v@, om, c.next_custom_id)
            &&& v@.subrange(op, op + 1) == "}"@
        } by {
            lemma_config_pieces(v@, c);
        }
    }
    let i0: usize = 0;
    let a = match expect_lit(&v, i0, "{\"dialogs\":[") {
        Some(a) => a,
        None => {
            return None;
        },
    };
    let (dialogs, b) = match parse_dialogs(&v, a) {
        Some(p) => p,
        None => {
            return None;
        },
    };
    let c = match expect_lit(&v, b, "],\"yes\":") {
        Some(c) => c,
        None => {
            return None;
        },
    };
    let (yes, d) = match parse_binding(&v, c) {
        Some(p) => p,
        None => {
            return None;
        },
    };
    let e = match expect_lit(&v, d, ",\"no\":") {
        Some(e) => e,
        None => {
            return None;
        },
    };
    let (no, f) = match parse_binding(&v, e) {
        Some(p) => p,
        None => {
            return None;
        },
    };
    let g = match expect_lit(&v, f, ",\"custom\":[") {
        Some(g) => g,
        None => {
            return None;
        },
    };
    let (custom, h) = match parse_customs(&v, g) {
        Some(p) => p,
        None => {
            return None;
        },
    };
    let m = match expect_lit(&v, h, "],\"next_custom_id\":") {
        Some(m) => m,
        None => {
            return None;
        },
    };
    let (next_id, p) = match parse_u32(&v, m) {
        Some(q) => q,
        None => {
            return None;
        },
    };
    let q = match expect_lit(&v, p, "}") {
        Some(q) => q,
        None => {
            return None;
        },
    };
    if q != v.len() {
        return None;
    }
    if !Config::names_valid(&custom) {
        proof {
            assert forall|c: Config| c.wf() && v@ == ser_config(c) implies false by {
                lemma_customs_like_names(custom@, c.custom@);
            }
        }
        return None;
    }
    let cfg = Config { dialogs, yes, no, custom, next_custom_id: next_id };
    proof {
        reveal_strlit("}");
        assert(v@.subrange(p as int, q as int) =~= seq!['}']);
        lemma_assemble_config(
            v@,
            a as int,
            b as int,
            c as int,
            d as int,
            e as int,
            f as int,
            g as int,
            h as int,
            m as int,
            p as int,
            q as int,
            cfg,
        );
    }
    Some(cfg)
}

/// Insignificant JSON whitespace.
pub open spec fn is_json_ws(c: char) -> bool {
    c == ' ' || c == '\t' || c == '\n' || c == '\r'
}

/// `s` with whitespace outside quoted strings removed; the state tracks
/// whether the position is inside a quoted string, and whether the previous
/// character there was an unconsumed backslash.
pub open spec fn strip_ws_st(s: Seq<char>, in_str: bool, esc: bool) -> Seq<char>
    decreases s.len(),
{
    if s.len() == 0 {
        Seq::empty()
    } else {
        let c = s[0];
        let rest = s.skip(1);
        if in_str {
            if esc {
                seq![c] + strip_ws_st(rest, true, false)
            } else if c == '\\' {
                seq![c] + strip_ws_st(rest, true, true)
            } else if c == '"' {
                seq![c] + strip_ws_st(rest, false, false)
            } else {
                seq![c] + strip_ws_st(rest, true, false)
            }
        } else {
            if is_json_ws(c) {
                strip_ws_st(rest, false, false)
            } else if c == '"' {
                seq![c] + strip_ws_st(rest, true, false)
            } else {
                seq![c] + strip_ws_st(rest, false, false)
            }
        }
    }
}

/// `s` with insignificant whitespace removed: whitespace between tokens
/// goes, whitespace inside quoted strings stays.
pub open spec fn strip_ws(s: Seq<char>) -> Seq<char> {
    strip_ws_st(s, false, false)
}

/// Removes insignificant whitespace, keeping quoted strings intact.
pub fn strip_whitespace(s: &str) -> (r: String)
    ensures
        r@ == strip_ws(s@),
{
    let cs = chars_vec(s);
    let n = cs.len();
    let mut out: Vec<char> = Vec::new();
    let mut in_str: bool = false;
    let mut esc: bool = false;
    let mut i: usize = 0;
    proof {
        assert(s@.skip(0) =~= s@);
        assert(out@ + strip_ws_st(s@.skip(0), false, false) =~= strip_ws_st(s@, false, false));
    }
    while i < n
        invariant
            i <= n,
            n == cs@.len(),
            cs@ == s@,
            !in_str ==> !esc,
            strip_ws(s@) == out@ + strip_ws_st(s@.skip(i as int), in_str, esc),
        decreases n - i,
    {
        let ghost i0 = i as int;
        let ghost st0 = in_str;
        let ghost esc0 = esc;
        let ghost out0 = out@;
        let c = cs[i];
        proof {
            assert(s@.skip(i0)[0] == c);
            assert(s@.skip(i0).skip(1) =~= s@.skip(i0 + 1));
        }
        if in_str {
            out.push(c);
            if esc {
                esc = false;
            } else if c == '\\' {
                esc = true;
            } else if c == '"' {
                in_str = false;
            }
        } else {
            if c == ' ' || c == '\t' || c == '\n' || c == '\r' {
            } else {
                out.push(c);
                if c == '"' {
                    in_str = true;
                }
            }
        }
        i = i + 1;
        proof {
            assert(s@.skip(i0).len() > 0);
            if st0 {
                assert(strip_ws_st(s@.skip(i0), st0, esc0) == seq![c] + strip_ws_st(
                    s@.skip(i0 + 1),
                    in_str,
                    esc,
                ));
                assert(out@ =~= out0 + seq![c]);
            } else if c == ' ' || c == '\t' || c == '\n' || c == '\r' {
                assert(is_json_ws(c));
                assert(strip_ws_st(s@.skip(i0), st0, esc0) == strip_ws_st(
                    s@.skip(i0 + 1),
                    in_str,
                    esc,
                ));
                assert(out@ == out0);
            } else {
                assert(!is_json_ws(c));
                assert(strip_ws_st(s@.skip(i0), st0, esc0) == seq![c] + strip_ws_st(
                    s@.skip(i0 + 1),
                    in_str,
                    esc,
                ));
                assert(out@ =~= out0 + seq![c]);
            }
            assert(strip_ws(s@) =~= out@ + strip_ws_st(s@.skip(i as int), in_str, esc));
        }
    }
    proof {
        assert(s@.skip(n as int) =~= Seq::<char>::empty());
        assert(strip_ws_st(s@.skip(n as int), in_str, esc) =~= Seq::<char>::empty());
        assert(out@ =~= out@ + strip_ws_st(s@.skip(n as int), in_str, esc));
    }
    string_from_chars(&out)
}

/// Builds the configuration to start from: the stored text when it parses
/// and is valid — insignificant whitespace is tolerated — and the
/// documented default otherwise. The second result says whether the stored
/// file must be (re)written: a missing or corrupt file is replaced by the
/// default at once.
pub fn load_or_default(content: Option<&String>) -> (r: (Config, bool))
    ensures
        r.0.wf(),
        content is None ==> r.0.is_default() && r.1,
        (content matches Some(s) && (forall|c: Config| s@ != ser_config(c)) && (forall|c: Config|
            strip_ws(s@) != ser_config(c))) ==> r.0.is_default() && r.1,
        !r.1 ==> (content matches Some(s) && (s@ == ser_config(r.0) || strip_ws(s@) == ser_config(
            r.0,
        ))),
        forall|c: Config|
            (content matches Some(s) && c.wf() && s@ == ser_config(c)) ==> (!r.1 && config_like(
                r.0,
                c,
            )),
        forall|c: Config|
            (content matches Some(s) && c.wf() && strip_ws(s@) == #[trigger] ser_config(c))
                ==> !r.1,
{
    match content {
        None => (Config::default(), true),
        Some(s) => {
            match from_json(s.as_str()) {
                Some(c) => (c, false),
                None => {
                    let stripped = strip_whitespace(s.as_str());
                    match from_json(stripped.as_str()) {
                        Some(c) => (c, false),
                        None => (Config::default(), true),
                    }
                },
            }
        },
    }
}

} // verus!
