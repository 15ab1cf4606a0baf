//! The structured payload encoding used on the wire: a field-keyed
//! encoding of `{time, data, unit, id, sensor_id, location}` with `time`
//! an integer, `data` a decimal number and the rest strings, escaped so
//! that any string content can be carried. Encoding and decoding are
//! exact inverses; to the decoder, whitespace outside of string fields is
//! insignificant, and whitespace inside a string field is content.

use vstd::prelude::*;

use crate::digits::{
    all_digits, data_rep, dec_rep, digits_value, int_rep, is_digit, lemma_dec_rep_digits,
    lemma_dec_rep_u64_len, lemma_dec_rep_val_inv, lemma_val_dec_rep, pow10, scan_digits, val,
};
use crate::ext;
use crate::measurement::{is_ws, str_ok, MeasurementView, SoilMoistureMeasurement};

verus! {

/// JSON-style escaping for string fields: a backslash or a double quote
/// is preceded by a backslash; every other character stands for itself.
pub open spec fn escape(s: Seq<char>) -> Seq<char>
    decreases s.len(),
{
    if s.len() == 0 {
        Seq::empty()
    } else {
        (if s[0] == '\\' || s[0] == '"' {
            seq!['\\', s[0]]
        } else {
            seq![s[0]]
        }) + escape(s.subrange(1, s.len() as int))
    }
}

/// The canonical payload text of measurement `v`: no whitespace outside
/// string fields, fields in a fixed order, numbers in canonical decimal
/// form, string fields escaped.
pub open spec fn payload_rep(v: MeasurementView) -> Seq<char> {
    ("{\"time\":")@ + int_rep(v.time) + (",\"data\":")@ + data_rep(v.data) + (",\"unit\":\"")@
        + escape(v.unit) + ("\",\"id\":\"")@ + escape(v.id) + ("\",\"sensor_id\":\"")@ + escape(
        v.sensor_id,
    ) + ("\",\"location\":\"")@ + escape(v.location) + ("\"}")@
}

/// The input with whitespace outside of string fields removed: an
/// unescaped double quote opens or closes a string, and whitespace
/// inside a string is ordinary content, kept as it stands.
pub open spec fn strip_from(s: Seq<char>, i: int, in_str: bool) -> Seq<char>
    decreases s.len() - i,
{
    if i < 0 || i >= s.len() {
        Seq::empty()
    } else if in_str {
        if s[i] == '\\' && i + 1 < s.len() {
            seq![s[i], s[i + 1]] + strip_from(s, i + 2, true)
        } else {
            seq![s[i]] + strip_from(s, i + 1, if s[i] == '"' {
                false
            } else {
                true
            })
        }
    } else if is_ws(s[i]) {
        strip_from(s, i + 1, false)
    } else {
        seq![s[i]] + strip_from(s, i + 1, if s[i] == '"' {
            true
        } else {
            false
        })
    }
}

pub open spec fn strip_ws(s: Seq<char>) -> Seq<char> {
    strip_from(s, 0, false)
}

/// Appending one character to a string appends its escaped form.
pub proof fn lemma_escape_push(s: Seq<char>, c: char)
    ensures
        escape(s.push(c)) == escape(s) + (if c == '\\' || c == '"' {
            seq!['\\', c]
        } else {
            seq![c]
        }),
    decreases s.len(),
{
    let sp = s.push(c);
    let pc: Seq<char> = if c == '\\' || c == '"' {
        seq!['\\', c]
    } else {
        seq![c]
    };
    if s.len() == 0 {
        assert(sp.len() == 1);
        assert(sp[0] == c);
        assert(sp.subrange(1, 1) =~= Seq::<char>::empty());
        assert(escape(sp.subrange(1, 1)) =~= Seq::<char>::empty());
        assert(escape(sp) =~= escape(s) + pc);
    } else {
        let p0: Seq<char> = if s[0] == '\\' || s[0] == '"' {
            seq!['\\', s[0]]
        } else {
            seq![s[0]]
        };
        assert(sp[0] == s[0]);
        assert(sp.subrange(1, sp.len() as int) =~= s.subrange(1, s.len() as int).push(c));
        lemma_escape_push(s.subrange(1, s.len() as int), c);
        assert(escape(sp) == p0 + escape(sp.subrange(1, sp.len() as int)));
        assert(escape(s) == p0 + escape(s.subrange(1, s.len() as int)));
        assert(escape(sp) =~= escape(s) + pc);
    }
}

/// Escape-closed text: every backslash is followed by a backslash or a
/// quote, and no unescaped quote occurs.
pub open spec fn esc_ok(s: Seq<char>) -> bool
    decreases s.len(),
{
    if s.len() == 0 {
        true
    } else if s[0] == '\\' {
        s.len() >= 2 && (s[1] == '\\' || s[1] == '"') && esc_ok(s.subrange(2, s.len() as int))
    } else {
        s[0] != '"' && esc_ok(s.subrange(1, s.len() as int))
    }
}

pub proof fn lemma_escape_esc_ok(f: Seq<char>)
    ensures
        esc_ok(escape(f)),
    decreases f.len(),
{
    if f.len() == 0 {
    } else {
        let e = escape(f);
        let rest = escape(f.subrange(1, f.len() as int));
        lemma_escape_esc_ok(f.subrange(1, f.len() as int));
        if f[0] == '\\' || f[0] == '"' {
            assert(e == seq!['\\', f[0]] + rest);
            assert(e[0] == '\\' && e[1] == f[0]);
            assert(e.subrange(2, e.len() as int) =~= rest);
        } else {
            assert(e == seq![f[0]] + rest);
            assert(e[0] == f[0]);
            assert(e.subrange(1, e.len() as int) =~= rest);
        }
    }
}

/// Content without quotes or backslashes is escape-closed as it stands.
pub proof fn lemma_plain_esc_ok(s: Seq<char>)
    requires
        forall|i: int| 0 <= i < s.len() ==> (#[trigger] s[i]) != '"' && s[i] != '\\',
    ensures
        esc_ok(s),
    decreases s.len(),
{
    if s.len() > 0 {
        let rest = s.subrange(1, s.len() as int);
        assert(forall|i: int| 0 <= i < rest.len() ==> rest[i] == s[i + 1]);
        lemma_plain_esc_ok(rest);
    }
}

/// Escaping is prefix-determined: if one escaped string is an initial
/// segment of another, the underlying strings agree on a prefix and the
/// remainder of the longer image is the image of the remainder.
pub proof fn lemma_escape_prefix(x: Seq<char>, y: Seq<char>)
    requires
        escape(x).len() <= escape(y).len(),
        escape(y).subrange(0, escape(x).len() as int) == escape(x),
    ensures
        x.len() <= y.len(),
        y.subrange(0, x.len() as int) == x,
        escape(y).subrange(escape(x).len() as int, escape(y).len() as int) == escape(
            y.subrange(x.len() as int, y.len() as int),
        ),
    decreases x.len(),
{
    let ex = escape(x);
    let ey = escape(y);
    if x.len() == 0 {
        assert(ex.len() == 0);
        assert(y.subrange(0, 0) =~= Seq::<char>::empty());
        assert(y.subrange(0, 0) =~= x);
        assert(ey.subrange(0, ey.len() as int) =~= ey);
        assert(y.subrange(0, y.len() as int) =~= y);
    } else {
        assert(ex.len() >= 1);
        assert(y.len() > 0) by {
            if y.len() == 0 {
                assert(ey.len() == 0);
            }
        }
        let xr = x.subrange(1, x.len() as int);
        let yr = y.subrange(1, y.len() as int);
        let px: Seq<char> = if x[0] == '\\' || x[0] == '"' {
            seq!['\\', x[0]]
        } else {
            seq![x[0]]
        };
        let py: Seq<char> = if y[0] == '\\' || y[0] == '"' {
            seq!['\\', y[0]]
        } else {
            seq![y[0]]
        };
        assert(ex == px + escape(xr));
        assert(ey == py + escape(yr));
        assert(ex[0] == ey.subrange(0, ex.len() as int)[0]);
        assert(ex[0] == ey[0]);
        let so: int = if x[0] == '\\' || x[0] == '"' {
            2
        } else {
            1
        };
        if x[0] == '\\' || x[0] == '"' {
            assert(ex[0] == '\\');
            assert(y[0] == '\\' || y[0] == '"') by {
                if !(y[0] == '\\' || y[0] == '"') {
                    assert(ey[0] == y[0]);
                }
            }
            assert(ex[1] == x[0] && ey[1] == y[0]);
            assert(ex[1] == ey.subrange(0, ex.len() as int)[1]);
            assert(x[0] == y[0]);
        } else {
            assert(ex[0] == x[0]);
            assert(!(y[0] == '\\' || y[0] == '"')) by {
                if y[0] == '\\' || y[0] == '"' {
                    assert(ey[0] == '\\');
                }
            }
            assert(ey[0] == y[0]);
            assert(x[0] == y[0]);
        }
        assert(px =~= py);
        assert(escape(yr).subrange(0, escape(xr).len() as int) =~= escape(xr)) by {
            assert forall|k: int| 0 <= k < escape(xr).len() implies escape(yr)[k] == escape(
                xr,
            )[k] by {
                assert(escape(xr)[k] == ex[k + so]);
                assert(escape(yr)[k] == ey[k + so]);
                assert(ex[k + so] == ey.subrange(0, ex.len() as int)[k + so]);
            }
        }
        lemma_escape_prefix(xr, yr);
        assert(y.subrange(0, x.len() as int) =~= x) by {
            assert forall|k: int| 0 <= k < x.len() implies y[k] == x[k] by {
                if k > 0 {
                    assert(x[k] == xr[k - 1]);
                    assert(yr.subrange(0, xr.len() as int)[k - 1] == xr[k - 1]);
                    assert(y[k] == yr[k - 1]);
                }
            }
        }
        assert(yr.subrange(xr.len() as int, yr.len() as int) =~= y.subrange(
            x.len() as int,
            y.len() as int,
        ));
        assert(escape(y).subrange(escape(x).len() as int, escape(y).len() as int) =~= escape(
            yr,
        ).subrange(escape(xr).len() as int, escape(yr).len() as int)) by {
            assert forall|k: int|
                0 <= k < ey.len() - ex.len() implies #[trigger] escape(y).subrange(
                escape(x).len() as int,
                escape(y).len() as int,
            )[k] == escape(yr).subrange(escape(xr).len() as int, escape(yr).len() as int)[k] by {
                assert(escape(y).subrange(escape(x).len() as int, escape(y).len() as int)[k]
                    == ey[ex.len() + k]);
                assert(escape(yr).subrange(escape(xr).len() as int, escape(yr).len() as int)[k]
                    == escape(yr)[escape(xr).len() + k]);
                assert(ey[ex.len() + k] == escape(yr)[ex.len() + k - so]);
            }
        }
    }
}

/// The whitespace pass keeps a plain out-of-string segment unchanged.
proof fn lemma_strip_plain_seg(s: Seq<char>, i: int, j: int)
    requires
        0 <= i <= j <= s.len(),
        forall|k: int| i <= k < j ==> !is_ws(#[trigger] s[k]) && s[k] != '"',
    ensures
        strip_from(s, i, false) == s.subrange(i, j) + strip_from(s, j, false),
    decreases j - i,
{
    if i == j {
        assert(s.subrange(i, j) =~= Seq::<char>::empty());
        assert(strip_from(s, i, false) =~= s.subrange(i, j) + strip_from(s, j, false));
    } else {
        assert(strip_from(s, i, false) == seq![s[i]] + strip_from(s, i + 1, false));
        lemma_strip_plain_seg(s, i + 1, j);
        assert(s.subrange(i, j) =~= seq![s[i]] + s.subrange(i + 1, j));
        assert(strip_from(s, i, false) =~= s.subrange(i, j) + strip_from(s, j, false));
    }
}

/// The whitespace pass keeps in-string escape-closed content unchanged.
proof fn lemma_strip_instr_seg(s: Seq<char>, i: int, j: int)
    requires
        0 <= i <= j <= s.len(),
        esc_ok(s.subrange(i, j)),
    ensures
        strip_from(s, i, true) == s.subrange(i, j) + strip_from(s, j, true),
    decreases j - i,
{
    if i == j {
        assert(s.subrange(i, j) =~= Seq::<char>::empty());
        assert(strip_from(s, i, true) =~= s.subrange(i, j) + strip_from(s, j, true));
    } else {
        let sub = s.subrange(i, j);
        assert(sub[0] == s[i]);
        if s[i] == '\\' {
            assert(sub.len() >= 2 && (sub[1] == '\\' || sub[1] == '"'));
            assert(s[i + 1] == sub[1]);
            assert(strip_from(s, i, true) == seq![s[i], s[i + 1]] + strip_from(s, i + 2, true));
            assert(esc_ok(s.subrange(i + 2, j))) by {
                assert(sub.subrange(2, sub.len() as int) =~= s.subrange(i + 2, j));
            }
            lemma_strip_instr_seg(s, i + 2, j);
            assert(s.subrange(i, j) =~= seq![s[i], s[i + 1]] + s.subrange(i + 2, j));
            assert(strip_from(s, i, true) =~= s.subrange(i, j) + strip_from(s, j, true));
        } else {
            assert(sub[0] != '"');
            assert(strip_from(s, i, true) == seq![s[i]] + strip_from(s, i + 1, true));
            assert(esc_ok(s.subrange(i + 1, j))) by {
                assert(sub.subrange(1, sub.len() as int) =~= s.subrange(i + 1, j));
            }
            lemma_strip_instr_seg(s, i + 1, j);
            assert(s.subrange(i, j) =~= seq![s[i]] + s.subrange(i + 1, j));
            assert(strip_from(s, i, true) =~= s.subrange(i, j) + strip_from(s, j, true));
        }
    }
}

/// The whitespace pass keeps a whole quoted section unchanged.
proof fn lemma_strip_quoted_seg(s: Seq<char>, i: int, j: int)
    requires
        0 <= i < j < s.len(),
        s[i] == '"',
        s[j] == '"',
        esc_ok(s.subrange(i + 1, j)),
    ensures
        strip_from(s, i, false) == s.subrange(i, j + 1) + strip_from(s, j + 1, false),
{
    assert(strip_from(s, i, false) == seq![s[i]] + strip_from(s, i + 1, true));
    lemma_strip_instr_seg(s, i + 1, j);
    assert(strip_from(s, j, true) == seq![s[j]] + strip_from(s, j + 1, false));
    assert(s.subrange(i, j + 1) =~= seq![s[i]] + s.subrange(i + 1, j) + seq![s[j]]);
    assert(strip_from(s, i, false) =~= s.subrange(i, j + 1) + strip_from(s, j + 1, false));
}

/// Digit-string characters need neither escaping nor whitespace care.
proof fn lemma_digits_str_ok(s: Seq<char>)
    requires
        all_digits(s),
    ensures
        str_ok(s),
{
    assert forall|i: int|
        0 <= i < s.len() implies !is_ws(#[trigger] s[i]) && s[i] != '"' && s[i] != '\\' by {
        assert(is_digit(s[i]));
    }
}

proof fn lemma_int_rep_str_ok(w: int)
    ensures
        str_ok(int_rep(w)),
{
    let a = (if w < 0 {
        -w
    } else {
        w
    }) as nat;
    lemma_dec_rep_digits(a);
    lemma_digits_str_ok(dec_rep(a));
    assert forall|i: int|
        0 <= i < int_rep(w).len() implies !is_ws(#[trigger] int_rep(w)[i]) && int_rep(w)[i] != '"'
        && int_rep(w)[i] != '\\' by {
        if w < 0 {
            if i == 0 {
                assert(int_rep(w)[0] == '-');
            } else {
                assert(int_rep(w)[i] == dec_rep(a)[i - 1]);
            }
        }
    }
}

proof fn lemma_data_rep_str_ok(w: int)
    ensures
        str_ok(data_rep(w)),
{
    let a = (if w < 0 {
        -w
    } else {
        w
    }) as nat;
    let ip = dec_rep((a / 100_000) as nat);
    let fr = crate::digits::strip_tz(crate::digits::padded((a % 100_000) as nat, 5));
    crate::digits::lemma_dec_rep_digits((a / 100_000) as nat);
    crate::digits::lemma_padded_props((a % 100_000) as nat, 5);
    crate::digits::lemma_strip_tz(crate::digits::padded((a % 100_000) as nat, 5));
    lemma_digits_str_ok(ip);
    lemma_digits_str_ok(fr);
    let sign: Seq<char> = if w < 0 {
        seq!['-']
    } else {
        Seq::<char>::empty()
    };
    assert(data_rep(w) == sign + ip + seq!['.'] + fr);
    assert forall|i: int|
        0 <= i < data_rep(w).len() implies !is_ws(#[trigger] data_rep(w)[i]) && data_rep(w)[i]
        != '"' && data_rep(w)[i] != '\\' by {
        let d = data_rep(w);
        let so = sign.len() as int;
        if i < so {
            assert(d[i] == '-');
        } else if i < so + ip.len() {
            assert(d[i] == ip[i - so]);
        } else if i == so + ip.len() {
            assert(d[i] == '.');
        } else {
            assert(d[i] == fr[i - so - ip.len() - 1]);
        }
    }
}

/// Decoding failed: the payload is not a well-formed encoding of any
/// measurement.
#[derive(Clone, Copy, Debug, PartialEq, Eq, Structural)]
pub enum DecodeError {
    Malformed,
}

/// Encoding failed: a string field holds a character the encoding cannot
/// carry (a quote, a backslash or whitespace).
#[derive(Clone, Copy, Debug, PartialEq, Eq, Structural)]
pub enum EncodeError {
    UnencodableField,
}

fn is_ws_char(c: char) -> (r: bool)
    ensures
        r == is_ws(c),
{
    c == ' ' || c == '\n' || c == '\t' || c == '\r'
}

/// Remove whitespace outside of string fields.
fn strip_ws_vec(t: &Vec<char>) -> (r: Vec<char>)
    ensures
        r@ == strip_ws(t@),
{
    let mut out: Vec<char> = Vec::new();
    let mut i: usize = 0;
    let mut in_str = false;
    let n = t.len();
    while i < n
        invariant
            i <= n,
            t@.len() == n,
            strip_from(t@, 0, false) == out@ + strip_from(t@, i as int, in_str),
        decreases n - i,
    {
        let c = t[i];
        if in_str {
            if c == '\\' && i + 1 < n {
                let c2 = t[i + 1];
                proof {
                    assert(strip_from(t@, i as int, true) == seq![c, c2] + strip_from(
                        t@,
                        i as int + 2,
                        true,
                    ));
                }
                out.push(c);
                out.push(c2);
                i = i + 2;
                proof {
                    assert(strip_from(t@, 0, false) =~= out@ + strip_from(t@, i as int, in_str));
                }
            } else {
                proof {
                    assert(strip_from(t@, i as int, true) == seq![c] + strip_from(
                        t@,
                        i as int + 1,
                        if c == '"' {
                            false
                        } else {
                            true
                        },
                    ));
                }
                out.push(c);
                in_str = c != '"';
                i = i + 1;
                proof {
                    assert(strip_from(t@, 0, false) =~= out@ + strip_from(t@, i as int, in_str));
                }
            }
        } else if is_ws_char(c) {
            proof {
                assert(strip_from(t@, i as int, false) == strip_from(t@, i as int + 1, false));
            }
            i = i + 1;
        } else {
            proof {
                assert(strip_from(t@, i as int, false) == seq![c] + strip_from(
                    t@,
                    i as int + 1,
                    if c == '"' {
                        true
                    } else {
                        false
                    },
                ));
            }
            out.push(c);
            in_str = c == '"';
            i = i + 1;
            proof {
                assert(strip_from(t@, 0, false) =~= out@ + strip_from(t@, i as int, in_str));
            }
        }
    }
    proof {
        assert(strip_from(t@, n as int, in_str) =~= Seq::<char>::empty());
        assert(out@ =~= strip_ws(t@));
    }
    out
}

/// Does `pat` occur in `t` exactly at position `i`?
fn match_lit(t: &Vec<char>, i: usize, pat: &Vec<char>) -> (r: bool)
    requires
        i <= t.len(),
    ensures
        r <==> (i + pat@.len() <= t@.len() && t@.subrange(
            i as int,
            i as int + pat@.len() as int,
        ) == pat@),
{
    if t.len() - i < pat.len() {
        return false;
    }
    let mut k: usize = 0;
    let n = t.len();
    while k < pat.len()
        invariant
            k <= pat.len(),
            i + pat@.len() <= t@.len(),
            t@.len() == n,
            forall|m: int| 0 <= m < k ==> t@[i + m] == pat@[m],
        decreases pat.len() - k,
    {
        if t[i + k] != pat[k] {
            proof {
                let sub = t@.subrange(i as int, i as int + pat@.len() as int);
                if sub == pat@ {
                    assert(sub[k as int] == t@[i + k as int]);
                }
            }
            return false;
        }
        k = k + 1;
    }
    proof {
        assert(t@.subrange(i as int, i as int + pat@.len() as int) =~= pat@);
    }
    true
}

/// Scan a string field from `i` up to its closing quote, undoing the
/// escapes. Fails on a lone backslash, an unknown escape, or a missing
/// closing quote; whitespace inside the field is ordinary content.
fn parse_string(t: &Vec<char>, i: usize) -> (r: Option<(String, usize)>)
    requires
        i <= t.len(),
    ensures
        (match r {
            Some(p) => i <= p.1 < t.len() && t@[p.1 as int] == '"' && t@.subrange(
                i as int,
                p.1 as int,
            ) == escape(p.0@) && i + escape(p.0@).len() == p.1,
            None => true,
        }),
        forall|f: Seq<char>|
            #![trigger escape(f)]
            (i + escape(f).len() < t@.len() && t@.subrange(
                i as int,
                i as int + escape(f).len() as int,
            ) == escape(f) && t@[i as int + escape(f).len() as int] == '"') ==> (match r {
                Some(p) => p.0@ == f && p.1 as int == i + escape(f).len(),
                None => false,
            }),
{
    let n = t.len();
    let mut j: usize = i;
    let mut out: Vec<char> = Vec::new();
    proof {
        assert(t@.subrange(i as int, i as int) =~= escape(out@));
    }
    loop
        invariant
            i <= j <= n,
            t@.len() == n,
            t@.subrange(i as int, j as int) == escape(out@),
            j as int == i + escape(out@).len(),
        decreases n - j,
    {
        if j >= n {
            proof {
                assert forall|f: Seq<char>|
                    #![trigger escape(f)]
                    (i + escape(f).len() < t@.len() && t@.subrange(
                        i as int,
                        i as int + escape(f).len() as int,
                    ) == escape(f) && t@[i as int + escape(f).len() as int] == '"') implies false by {
                    let le = escape(f).len() as int;
                    assert(escape(out@).subrange(0, le) =~= escape(f)) by {
                        assert forall|k: int| 0 <= k < le implies escape(out@)[k] == escape(
                            f,
                        )[k] by {
                            assert(escape(out@)[k] == t@[i + k]);
                            assert(escape(f)[k] == t@.subrange(i as int, i as int + le)[k]);
                        }
                    }
                    lemma_escape_prefix(f, out@);
                    let g = out@.subrange(f.len() as int, out@.len() as int);
                    assert(escape(out@)[le] == escape(g)[0]);
                    assert(escape(out@)[le] == t@[i + le]);
                    assert(g.len() > 0) by {
                        if g.len() == 0 {
                            assert(escape(g).len() == 0);
                        }
                    }
                    if g[0] == '\\' || g[0] == '"' {
                        assert(escape(g)[0] == '\\');
                    } else {
                        assert(escape(g)[0] == g[0]);
                    }
                }
            }
            return None;
        }
        let c = t[j];
        if c == '"' {
            proof {
                assert forall|f: Seq<char>|
                    #![trigger escape(f)]
                    (i + escape(f).len() < t@.len() && t@.subrange(
                        i as int,
                        i as int + escape(f).len() as int,
                    ) == escape(f) && t@[i as int + escape(f).len() as int] == '"') implies (out@
                    == f && j as int == i + escape(f).len()) by {
                    let le = escape(f).len() as int;
                    let m = escape(out@).len() as int;
                    if m <= le {
                        assert(escape(f).subrange(0, m) =~= escape(out@)) by {
                            assert forall|k: int| 0 <= k < m implies escape(f)[k] == escape(
                                out@,
                            )[k] by {
                                assert(escape(out@)[k] == t@[i + k]);
                                assert(escape(f)[k] == t@.subrange(i as int, i as int + le)[k]);
                            }
                        }
                        lemma_escape_prefix(out@, f);
                        if m < le {
                            let g = f.subrange(out@.len() as int, f.len() as int);
                            assert(escape(f)[m] == escape(g)[0]);
                            assert(escape(f)[m] == t@[j as int]);
                            assert(g.len() > 0) by {
                                if g.len() == 0 {
                                    assert(escape(g).len() == 0);
                                }
                            }
                            if g[0] == '\\' || g[0] == '"' {
                                assert(escape(g)[0] == '\\');
                            } else {
                                assert(escape(g)[0] == g[0]);
                            }
                            assert(false);
                        }
                        let g = f.subrange(out@.len() as int, f.len() as int);
                        assert(escape(f).subrange(le, le) =~= Seq::<char>::empty());
                        assert(escape(g).len() == 0);
                        assert(g.len() == 0) by {
                            if g.len() > 0 {
                                assert(escape(g).len() >= 1);
                            }
                        }
                        assert(f.len() == out@.len());
                        assert(f.subrange(0, out@.len() as int) =~= f);
                        assert(out@ == f);
                    } else {
                        assert(escape(out@).subrange(0, le) =~= escape(f)) by {
                            assert forall|k: int| 0 <= k < le implies escape(out@)[k] == escape(
                                f,
                            )[k] by {
                                assert(escape(out@)[k] == t@[i + k]);
                                assert(escape(f)[k] == t@.subrange(i as int, i as int + le)[k]);
                            }
                        }
                        lemma_escape_prefix(f, out@);
                        let g = out@.subrange(f.len() as int, out@.len() as int);
                        assert(escape(out@)[le] == escape(g)[0]);
                        assert(escape(out@)[le] == t@[i + le]);
                        assert(g.len() > 0) by {
                            if g.len() == 0 {
                                assert(escape(g).len() == 0);
                            }
                        }
                        if g[0] == '\\' || g[0] == '"' {
                            assert(escape(g)[0] == '\\');
                        } else {
                            assert(escape(g)[0] == g[0]);
                        }
                        assert(false);
                    }
                }
            }
            return Some((ext::chars_to_string(&out), j));
        }
        if c == '\\' {
            if j + 1 >= n || !(t[j + 1] == '\\' || t[j + 1] == '"') {
                proof {
                    assert forall|f: Seq<char>|
                        #![trigger escape(f)]
                        (i + escape(f).len() < t@.len() && t@.subrange(
                            i as int,
                            i as int + escape(f).len() as int,
                        ) == escape(f) && t@[i as int + escape(f).len() as int] == '"') implies false by {
                        let le = escape(f).len() as int;
                        let m = escape(out@).len() as int;
                        if m < le {
                            assert(escape(f).subrange(0, m) =~= escape(out@)) by {
                                assert forall|k: int| 0 <= k < m implies escape(f)[k] == escape(
                                    out@,
                                )[k] by {
                                    assert(escape(out@)[k] == t@[i + k]);
                                    assert(escape(f)[k] == t@.subrange(
                                        i as int,
                                        i as int + le,
                                    )[k]);
                                }
                            }
                            lemma_escape_prefix(out@, f);
                            let g = f.subrange(out@.len() as int, f.len() as int);
                            assert(escape(f).subrange(m, le) == escape(g));
                            assert(escape(g)[0] == escape(f)[m]);
                            assert(escape(f)[m] == t@[j as int]);
                            assert(g.len() > 0) by {
                                if g.len() == 0 {
                                    assert(escape(g).len() == 0);
                                }
                            }
                            assert(g[0] == '\\' || g[0] == '"') by {
                                if !(g[0] == '\\' || g[0] == '"') {
                                    assert(escape(g)[0] == g[0]);
                                }
                            }
                            assert(escape(g) == seq!['\\', g[0]] + escape(
                                g.subrange(1, g.len() as int),
                            ));
                            assert(escape(g).len() >= 2);
                            assert(escape(g)[1] == g[0]);
                            assert(escape(f)[m + 1] == escape(g)[1]);
                            assert(t@[j as int + 1] == escape(f)[m + 1]);
                            assert(j + 1 < n);
                        } else if m == le {
                            assert(t@[j as int] == '"');
                        } else {
                            assert(escape(out@).subrange(0, le) =~= escape(f)) by {
                                assert forall|k: int| 0 <= k < le implies escape(out@)[k]
                                    == escape(f)[k] by {
                                    assert(escape(out@)[k] == t@[i + k]);
                                    assert(escape(f)[k] == t@.subrange(
                                        i as int,
                                        i as int + le,
                                    )[k]);
                                }
                            }
                            lemma_escape_prefix(f, out@);
                            let g = out@.subrange(f.len() as int, out@.len() as int);
                            assert(escape(out@)[le] == escape(g)[0]);
                            assert(escape(out@)[le] == t@[i + le]);
                            assert(g.len() > 0) by {
                                if g.len() == 0 {
                                    assert(escape(g).len() == 0);
                                }
                            }
                            if g[0] == '\\' || g[0] == '"' {
                                assert(escape(g)[0] == '\\');
                            } else {
                                assert(escape(g)[0] == g[0]);
                            }
                            assert(false);
                        }
                    }
                }
                return None;
            }
            let c2 = t[j + 1];
            proof {
                lemma_escape_push(out@, c2);
                assert(t@.subrange(i as int, j as int + 2) =~= t@.subrange(i as int, j as int)
                    + seq![c, c2]);
            }
            out.push(c2);
            j = j + 2;
            proof {
                assert(t@.subrange(i as int, j as int) =~= escape(out@));
            }
        } else {
            proof {
                lemma_escape_push(out@, c);
                assert(t@.subrange(i as int, j as int + 1) =~= t@.subrange(i as int, j as int)
                    + seq![c]);
            }
            out.push(c);
            j = j + 1;
            proof {
                assert(t@.subrange(i as int, j as int) =~= escape(out@));
            }
        }
    }
}

/// Append the escaped form of `s` to `out`.
pub(crate) fn append_escaped(out: &mut Vec<char>, s: &str)
    ensures
        final(out)@ == old(out)@ + escape(s@),
{
    let cs = ext::str_chars(s);
    let mut i: usize = 0;
    proof {
        assert(cs@.subrange(0, 0) =~= Seq::<char>::empty());
        assert(escape(cs@.subrange(0, 0)) =~= Seq::<char>::empty());
    }
    while i < cs.len()
        invariant
            i <= cs.len(),
            cs@ == s@,
            out@ == old(out)@ + escape(cs@.subrange(0, i as int)),
        decreases cs.len() - i,
    {
        let c = cs[i];
        proof {
            assert(cs@.subrange(0, i as int + 1) =~= cs@.subrange(0, i as int).push(c));
            lemma_escape_push(cs@.subrange(0, i as int), c);
        }
        if c == '\\' || c == '"' {
            out.push('\\');
            out.push(c);
        } else {
            out.push(c);
        }
        i = i + 1;
        proof {
            assert(out@ =~= old(out)@ + escape(cs@.subrange(0, i as int)));
        }
    }
    proof {
        assert(cs@.subrange(0, cs@.len() as int) =~= cs@);
    }
}

/// Facts about the digit run when the text at `i` is `int_rep(w)` followed
/// by a non-digit: the scanner stops exactly at its end and every
/// canonicality check passes.
proof fn lemma_int_run_facts(t: Seq<char>, i: int, w: int, neg: bool, ds: int, end: int)
    requires
        0 <= i <= t.len(),
        i64::MIN <= w <= i64::MAX,
        i + int_rep(w).len() <= t.len(),
        t.subrange(i, i + int_rep(w).len() as int) == int_rep(w),
        i + int_rep(w).len() == t.len() || !is_digit(t[i + int_rep(w).len() as int]),
        neg == (i < t.len() && t[i] == '-'),
        ds == if neg {
            i + 1
        } else {
            i
        },
        ds <= end <= t.len(),
        forall|k: int| ds <= k < end ==> is_digit(#[trigger] t[k]),
        end == t.len() || !is_digit(t[end]),
    ensures
        neg == (w < 0),
        end == i + int_rep(w).len(),
        t.subrange(ds, end) == dec_rep((if w < 0 {
            -w
        } else {
            w
        }) as nat),
        end > ds,
        end - ds <= 20,
        !(t[ds] == '0' && end - ds > 1),
        val(t.subrange(ds, end)) == (if w < 0 {
            -w
        } else {
            w
        }),
{
    let a = (if w < 0 {
        -w
    } else {
        w
    }) as nat;
    let rep = int_rep(w);
    let d = dec_rep(a);
    lemma_dec_rep_digits(a);
    lemma_val_dec_rep(a);
    lemma_dec_rep_u64_len(a);
    if w < 0 {
        assert(rep == seq!['-'] + d);
        assert(rep[0] == '-');
        assert(t.subrange(i, i + rep.len() as int)[0] == t[i]);
        assert(t[i] == '-');
        assert(neg);
        assert(ds == i + 1);
        assert forall|k: int| ds <= k < i + rep.len() implies is_digit(#[trigger] t[k]) by {
            assert(t[k] == t.subrange(i, i + rep.len() as int)[k - i]);
            assert(rep[k - i] == d[k - i - 1]);
        }
        if end < i + rep.len() {
            assert(is_digit(t[end]));
            assert(end < t.len());
        }
        if end > i + rep.len() {
            assert(is_digit(t[i + rep.len() as int]));
        }
        assert(end == i + rep.len());
        assert(t.subrange(ds, end) =~= d) by {
            assert forall|k: int| 0 <= k < end - ds implies t.subrange(ds, end)[k] == d[k] by {
                assert(t.subrange(ds, end)[k] == t[ds + k]);
                assert(t[ds + k] == t.subrange(i, i + rep.len() as int)[ds + k - i]);
                assert(rep[ds + k - i] == d[k]);
            }
        }
        assert(a >= 1);
        assert(d[0] != '0' || d.len() == 1);
        if d.len() == 1 && d[0] == '0' {
            assert(d == seq!['0']);
            assert(val(d) == 0) by {
                assert(d.drop_last() =~= Seq::<char>::empty());
                assert(val(d.drop_last()) == 0);
            }
        }
        assert(!(t[ds] == '0' && end - ds > 1));
    } else {
        assert(rep == d);
        assert(t.subrange(i, i + rep.len() as int)[0] == t[i]);
        assert(t[i] == d[0]);
        assert(is_digit(d[0]));
        assert(t[i] != '-');
        assert(!neg);
        assert(ds == i);
        assert forall|k: int| ds <= k < i + rep.len() implies is_digit(#[trigger] t[k]) by {
            assert(t[k] == t.subrange(i, i + rep.len() as int)[k - i]);
        }
        if end < i + rep.len() {
            assert(is_digit(t[end]));
            assert(end < t.len());
        }
        if end > i + rep.len() {
            assert(is_digit(t[i + rep.len() as int]));
        }
        assert(end == i + rep.len());
        assert(t.subrange(ds, end) =~= d);
        assert(!(t[ds] == '0' && end - ds > 1)) by {
            if end - ds > 1 {
                assert(a > 0 || d.len() == 1);
                assert(d[0] != '0');
                assert(t[ds] == d[0]);
            }
        }
    }
    assert(val(t.subrange(ds, end)) == a);
}

/// Parse a signed integer in canonical decimal form at position `i`.
/// On success the consumed text is exactly `int_rep` of the value; and
/// whenever the text at `i` is `int_rep(w)` for some `w` in range,
/// followed by a non-digit or the end, the parse succeeds with `w`.
pub(crate) fn parse_int(t: &Vec<char>, i: usize) -> (r: Option<(i64, usize)>)
    requires
        i <= t.len(),
    ensures
        match r {
            Some(p) => i < p.1 <= t.len() && t@.subrange(i as int, p.1 as int) == int_rep(
                p.0 as int,
            ),
            None => true,
        },
        forall|w: int|
            #![trigger int_rep(w)]
            (i64::MIN <= w <= i64::MAX && i + int_rep(w).len() <= t@.len() && t@.subrange(
                i as int,
                i as int + int_rep(w).len() as int,
            ) == int_rep(w) && (i + int_rep(w).len() == t@.len() || !is_digit(
                t@[i as int + int_rep(w).len() as int],
            ))) ==> (match r {
                Some(p) => p.0 as int == w && p.1 as int == i + int_rep(w).len(),
                None => false,
            }),
{
    let neg = i < t.len() && t[i] == '-';
    let ds = if neg {
        i + 1
    } else {
        i
    };
    let end = scan_digits(t, ds);
    if end == ds || end - ds > 20 || (t[ds] == '0' && end - ds > 1) {
        proof {
            assert forall|w: int|
                #![trigger int_rep(w)]
                (i64::MIN <= w <= i64::MAX && i + int_rep(w).len() <= t@.len() && t@.subrange(
                    i as int,
                    i as int + int_rep(w).len() as int,
                ) == int_rep(w) && (i + int_rep(w).len() == t@.len() || !is_digit(
                    t@[i as int + int_rep(w).len() as int],
                ))) implies false by {
                lemma_int_run_facts(t@, i as int, w, neg, ds as int, end as int);
            }
        }
        return None;
    }
    let v128 = digits_value(t, ds, end);
    if neg {
        if v128 == 0 || v128 > 9_223_372_036_854_775_808u128 {
            proof {
                assert forall|w: int|
                    #![trigger int_rep(w)]
                    (i64::MIN <= w <= i64::MAX && i + int_rep(w).len() <= t@.len() && t@.subrange(
                        i as int,
                        i as int + int_rep(w).len() as int,
                    ) == int_rep(w) && (i + int_rep(w).len() == t@.len() || !is_digit(
                        t@[i as int + int_rep(w).len() as int],
                    ))) implies false by {
                    lemma_int_run_facts(t@, i as int, w, neg, ds as int, end as int);
                }
            }
            return None;
        }
        let v: i64 = (-(v128 as i128)) as i64;
        proof {
            let run = t@.subrange(ds as int, end as int);
            lemma_dec_rep_val_inv(run);
            assert(t@.subrange(i as int, end as int) =~= seq!['-'] + run);
            assert(int_rep(v as int) == seq!['-'] + dec_rep((-(v as int)) as nat));
            assert(t@.subrange(i as int, end as int) == int_rep(v as int));
            assert forall|w: int|
                #![trigger int_rep(w)]
                (i64::MIN <= w <= i64::MAX && i + int_rep(w).len() <= t@.len() && t@.subrange(
                    i as int,
                    i as int + int_rep(w).len() as int,
                ) == int_rep(w) && (i + int_rep(w).len() == t@.len() || !is_digit(
                    t@[i as int + int_rep(w).len() as int],
                ))) implies (v as int == w && end as int == i + int_rep(w).len()) by {
                lemma_int_run_facts(t@, i as int, w, neg, ds as int, end as int);
            }
        }
        Some((v, end))
    } else {
        if v128 > 9_223_372_036_854_775_807u128 {
            proof {
                assert forall|w: int|
                    #![trigger int_rep(w)]
                    (i64::MIN <= w <= i64::MAX && i + int_rep(w).len() <= t@.len() && t@.subrange(
                        i as int,
                        i as int + int_rep(w).len() as int,
                    ) == int_rep(w) && (i + int_rep(w).len() == t@.len() || !is_digit(
                        t@[i as int + int_rep(w).len() as int],
                    ))) implies false by {
                    lemma_int_run_facts(t@, i as int, w, neg, ds as int, end as int);
                }
            }
            return None;
        }
        let v: i64 = v128 as i64;
        proof {
            let run = t@.subrange(ds as int, end as int);
            lemma_dec_rep_val_inv(run);
            assert(t@.subrange(i as int, end as int) == run);
            assert(int_rep(v as int) == dec_rep((v as int) as nat));
            assert(t@.subrange(i as int, end as int) == int_rep(v as int));
            assert forall|w: int|
                #![trigger int_rep(w)]
                (i64::MIN <= w <= i64::MAX && i + int_rep(w).len() <= t@.len() && t@.subrange(
                    i as int,
                    i as int + int_rep(w).len() as int,
                ) == int_rep(w) && (i + int_rep(w).len() == t@.len() || !is_digit(
                    t@[i as int + int_rep(w).len() as int],
                ))) implies (v as int == w && end as int == i + int_rep(w).len()) by {
                lemma_int_run_facts(t@, i as int, w, neg, ds as int, end as int);
            }
        }
        Some((v, end))
    }
}

/// Facts about the two digit runs when the text at `i` is `data_rep(w)`:
/// the integer-part scanner stops exactly at the decimal point and every
/// canonicality check on the integer part passes.
proof fn lemma_data_run_facts1(t: Seq<char>, i: int, w: int, neg: bool, ds: int, end1: int)
    requires
        0 <= i <= t.len(),
        i64::MIN <= w <= i64::MAX,
        i + data_rep(w).len() <= t.len(),
        t.subrange(i, i + data_rep(w).len() as int) == data_rep(w),
        i + data_rep(w).len() == t.len() || !is_digit(t[i + data_rep(w).len() as int]),
        neg == (i < t.len() && t[i] == '-'),
        ds == if neg {
            i + 1
        } else {
            i
        },
        ds <= end1 <= t.len(),
        forall|k: int| ds <= k < end1 ==> is_digit(#[trigger] t[k]),
        end1 == t.len() || !is_digit(t[end1]),
    ensures
        neg == (w < 0),
        ({
            let a = (if w < 0 {
                -w
            } else {
                w
            }) as nat;
            let ipd = dec_rep((a / 100_000) as nat);
            let frep = crate::digits::strip_tz(crate::digits::padded((a % 100_000) as nat, 5));
            end1 == ds + ipd.len()
                && t.subrange(ds, end1) == ipd
                && end1 > ds
                && end1 - ds <= 20
                && !(t[ds] == '0' && end1 - ds > 1)
                && val(t.subrange(ds, end1)) == a / 100_000
                && end1 < t.len()
                && t[end1] == '.'
                && end1 + 1 + frep.len() == i + data_rep(w).len()
                && t.subrange(end1 + 1, end1 + 1 + frep.len() as int) == frep
        }),
{
    let a = (if w < 0 {
        -w
    } else {
        w
    }) as nat;
    let rep = data_rep(w);
    let ipd = dec_rep((a / 100_000) as nat);
    let pad = crate::digits::padded((a % 100_000) as nat, 5);
    let frep = crate::digits::strip_tz(pad);
    lemma_dec_rep_digits((a / 100_000) as nat);
    lemma_val_dec_rep((a / 100_000) as nat);
    lemma_dec_rep_u64_len((a / 100_000) as nat);
    crate::digits::lemma_padded_props((a % 100_000) as nat, 5);
    crate::digits::lemma_strip_tz(pad);
    let sign: Seq<char> = if w < 0 {
        seq!['-']
    } else {
        Seq::<char>::empty()
    };
    assert(rep == sign + ipd + seq!['.'] + frep);
    let so = sign.len() as int;
    assert(rep.len() == so + ipd.len() + 1 + frep.len());
    if w < 0 {
        assert(rep[0] == '-');
        assert(t.subrange(i, i + rep.len() as int)[0] == t[i]);
        assert(t[i] == '-');
        assert(neg);
    } else {
        assert(rep[0] == ipd[0]);
        assert(t.subrange(i, i + rep.len() as int)[0] == t[i]);
        assert(is_digit(ipd[0]));
        assert(t[i] != '-');
        assert(!neg);
    }
    assert(ds == i + so);
    assert forall|k: int| ds <= k < ds + ipd.len() implies is_digit(#[trigger] t[k]) by {
        assert(t[k] == t.subrange(i, i + rep.len() as int)[k - i]);
        assert(rep[k - i] == ipd[k - i - so]);
    }
    assert(t[ds + ipd.len() as int] == rep[so + ipd.len() as int]) by {
        assert(t.subrange(i, i + rep.len() as int)[so + ipd.len() as int] == t[ds
            + ipd.len() as int]);
    }
    assert(rep[so + ipd.len() as int] == '.');
    assert(!is_digit('.'));
    if end1 < ds + ipd.len() {
        assert(is_digit(t[end1]));
        assert(end1 < t.len());
    }
    if end1 > ds + ipd.len() {
        assert(is_digit(t[ds + ipd.len() as int]));
    }
    assert(end1 == ds + ipd.len());
    assert(t.subrange(ds, end1) =~= ipd) by {
        assert forall|k: int| 0 <= k < end1 - ds implies t.subrange(ds, end1)[k] == ipd[k] by {
            assert(t.subrange(ds, end1)[k] == t[ds + k]);
            assert(t[ds + k] == t.subrange(i, i + rep.len() as int)[ds + k - i]);
            assert(rep[ds + k - i] == ipd[k]);
        }
    }
    assert(!(t[ds] == '0' && end1 - ds > 1)) by {
        if end1 - ds > 1 {
            assert(ipd.len() > 1);
            assert(a / 100_000 > 0);
            assert(ipd[0] != '0');
            assert(t[ds] == t.subrange(ds, end1)[0]);
        }
    }
    assert(val(t.subrange(ds, end1)) == a / 100_000);
    assert(t.subrange(end1 + 1, end1 + 1 + frep.len() as int) =~= frep) by {
        assert forall|k: int| 0 <= k < frep.len() implies t.subrange(
            end1 + 1,
            end1 + 1 + frep.len() as int,
        )[k] == frep[k] by {
            assert(t.subrange(end1 + 1, end1 + 1 + frep.len() as int)[k] == t[end1 + 1 + k]);
            assert(t[end1 + 1 + k] == t.subrange(i, i + rep.len() as int)[end1 + 1 + k - i]);
            assert(rep[end1 + 1 + k - i] == frep[k]);
        }
    }
}

/// Continuation of `lemma_data_run_facts1`: the fraction-part scanner
/// stops exactly at the end of `data_rep(w)`, the fraction is canonical,
/// and the two runs reassemble to the absolute value of `w`.
proof fn lemma_data_run_facts2(
    t: Seq<char>,
    i: int,
    w: int,
    neg: bool,
    ds: int,
    end1: int,
    end2: int,
)
    requires
        0 <= i <= t.len(),
        i64::MIN <= w <= i64::MAX,
        i + data_rep(w).len() <= t.len(),
        t.subrange(i, i + data_rep(w).len() as int) == data_rep(w),
        i + data_rep(w).len() == t.len() || !is_digit(t[i + data_rep(w).len() as int]),
        neg == (i < t.len() && t[i] == '-'),
        ds == if neg {
            i + 1
        } else {
            i
        },
        ds <= end1 <= t.len(),
        forall|k: int| ds <= k < end1 ==> is_digit(#[trigger] t[k]),
        end1 == t.len() || !is_digit(t[end1]),
        end1 + 1 <= end2 <= t.len(),
        forall|k: int| end1 + 1 <= k < end2 ==> is_digit(#[trigger] t[k]),
        end2 == t.len() || !is_digit(t[end2]),
    ensures
        neg == (w < 0),
        ({
            let a = (if w < 0 {
                -w
            } else {
                w
            }) as nat;
            let fs = end1 + 1;
            end2 == i + data_rep(w).len()
                && 1 <= end2 - fs <= 5
                && (end2 - fs == 1 || t[end2 - 1] != '0')
                && val(t.subrange(fs, end2)) * pow10((5 - (end2 - fs)) as nat) == a % 100_000
                && val(t.subrange(ds, end1)) * 100_000 + val(t.subrange(fs, end2)) * pow10(
                (5 - (end2 - fs)) as nat,
            ) == a
                && (neg ==> a >= 1)
        }),
{
    lemma_data_run_facts1(t, i, w, neg, ds, end1);
    let a = (if w < 0 {
        -w
    } else {
        w
    }) as nat;
    let pad = crate::digits::padded((a % 100_000) as nat, 5);
    let frep = crate::digits::strip_tz(pad);
    crate::digits::lemma_padded_props((a % 100_000) as nat, 5);
    crate::digits::lemma_strip_tz(pad);
    assert(pow10(5) == 100_000) by {
        reveal_with_fuel(pow10, 6);
    }
    assert(a % 100_000 < pow10(5));
    assert(val(pad) == a % 100_000);
    let fs = end1 + 1;
    let fe = fs + frep.len() as int;
    assert(t.subrange(fs, fe) == frep);
    assert forall|k: int| fs <= k < fe implies is_digit(#[trigger] t[k]) by {
        assert(t[k] == t.subrange(fs, fe)[k - fs]);
    }
    assert(fe == i + data_rep(w).len());
    if end2 < fe {
        assert(is_digit(t[end2]));
        assert(end2 < t.len());
    }
    if end2 > fe {
        assert(is_digit(t[fe]));
    }
    assert(end2 == fe);
    assert(1 <= frep.len() <= 5);
    assert(end2 - fs == 1 || t[end2 - 1] != '0') by {
        if frep.len() > 1 {
            assert(frep.last() != '0');
            assert(t[end2 - 1] == t.subrange(fs, end2)[end2 - 1 - fs]);
        }
    }
    assert(val(frep) * pow10((5 - frep.len()) as nat) == val(pad));
    assert(val(t.subrange(ds, end1)) == a / 100_000);
    assert(a / 100_000 * 100_000 + a % 100_000 == a);
    if neg {
        assert(w < 0);
        assert(a >= 1);
    }
}

/// Parse a fixed-point decimal in canonical form at position `i`: an
/// optional sign, the integer part, a point, and one to five fractional
/// digits without a trailing zero (except the single digit `0`). The
/// result counts hundred-thousandths.
#[verifier::rlimit(100)]
pub(crate) fn parse_data(t: &Vec<char>, i: usize) -> (r: Option<(i64, usize)>)
    requires
        i <= t.len(),
    ensures
        match r {
            Some(p) => i < p.1 <= t.len() && t@.subrange(i as int, p.1 as int) == data_rep(
                p.0 as int,
            ),
            None => true,
        },
        forall|w: int|
            #![trigger data_rep(w)]
            (i64::MIN <= w <= i64::MAX && i + data_rep(w).len() <= t@.len() && t@.subrange(
                i as int,
                i as int + data_rep(w).len() as int,
            ) == data_rep(w) && (i + data_rep(w).len() == t@.len() || !is_digit(
                t@[i as int + data_rep(w).len() as int],
            ))) ==> (match r {
                Some(p) => p.0 as int == w && p.1 as int == i + data_rep(w).len(),
                None => false,
            }),
{
    let neg = i < t.len() && t[i] == '-';
    let ds = if neg {
        i + 1
    } else {
        i
    };
    let end1 = scan_digits(t, ds);
    if end1 == ds || end1 - ds > 20 || (t[ds] == '0' && end1 - ds > 1) || end1 >= t.len() || t[end1]
        != '.' {
        proof {
            assert forall|w: int|
                #![trigger data_rep(w)]
                (i64::MIN <= w <= i64::MAX && i + data_rep(w).len() <= t@.len() && t@.subrange(
                    i as int,
                    i as int + data_rep(w).len() as int,
                ) == data_rep(w) && (i + data_rep(w).len() == t@.len() || !is_digit(
                    t@[i as int + data_rep(w).len() as int],
                ))) implies false by {
                lemma_data_run_facts1(t@, i as int, w, neg, ds as int, end1 as int);
            }
        }
        return None;
    }
    let fs = end1 + 1;
    let end2 = scan_digits(t, fs);
    if end2 == fs || end2 - fs > 5 || (end2 - fs > 1 && t[end2 - 1] == '0') {
        proof {
            assert forall|w: int|
                #![trigger data_rep(w)]
                (i64::MIN <= w <= i64::MAX && i + data_rep(w).len() <= t@.len() && t@.subrange(
                    i as int,
                    i as int + data_rep(w).len() as int,
                ) == data_rep(w) && (i + data_rep(w).len() == t@.len() || !is_digit(
                    t@[i as int + data_rep(w).len() as int],
                ))) implies false by {
                lemma_data_run_facts2(
                    t@,
                    i as int,
                    w,
                    neg,
                    ds as int,
                    end1 as int,
                    end2 as int,
                );
            }
        }
        return None;
    }
    data_value_of(t, i, neg, ds, end1, end2)
}

/// Assemble the fixed-point value once both digit runs are delimited and
/// canonical; shares `parse_data`'s contract for that situation.
#[verifier::rlimit(100)]
fn data_value_of(
    t: &Vec<char>,
    i: usize,
    neg: bool,
    ds: usize,
    end1: usize,
    end2: usize,
) -> (r: Option<(i64, usize)>)
    requires
        i <= t.len(),
        neg == (i < t@.len() && t@[i as int] == '-'),
        ds as int == if neg {
            i + 1
        } else {
            i as int
        },
        ds <= end1 <= t.len(),
        forall|k: int| ds <= k < end1 ==> is_digit(#[trigger] t@[k]),
        end1 == t.len() || !is_digit(t@[end1 as int]),
        end1 > ds,
        end1 - ds <= 20,
        !(t@[ds as int] == '0' && end1 - ds > 1),
        end1 < t.len(),
        t@[end1 as int] == '.',
        end1 + 1 <= end2 <= t.len(),
        forall|k: int| end1 + 1 <= k < end2 ==> is_digit(#[trigger] t@[k]),
        end2 == t.len() || !is_digit(t@[end2 as int]),
        1 <= end2 - (end1 + 1) <= 5,
        end2 - (end1 + 1) == 1 || t@[end2 as int - 1] != '0',
    ensures
        match r {
            Some(p) => i < p.1 <= t.len() && t@.subrange(i as int, p.1 as int) == data_rep(
                p.0 as int,
            ),
            None => true,
        },
        forall|w: int|
            #![trigger data_rep(w)]
            (i64::MIN <= w <= i64::MAX && i + data_rep(w).len() <= t@.len() && t@.subrange(
                i as int,
                i as int + data_rep(w).len() as int,
            ) == data_rep(w) && (i + data_rep(w).len() == t@.len() || !is_digit(
                t@[i as int + data_rep(w).len() as int],
            ))) ==> (match r {
                Some(p) => p.0 as int == w && p.1 as int == i + data_rep(w).len(),
                None => false,
            }),
{
    let fs = end1 + 1;
    let ip128 = digits_value(t, ds, end1);
    let fr128 = digits_value(t, fs, end2);
    proof {
        crate::digits::lemma_val_bound(t@.subrange(fs as int, end2 as int));
        crate::digits::lemma_pow10_mono(t@.subrange(fs as int, end2 as int).len() as nat, 5);
        assert(pow10(5) == 100_000) by {
            reveal_with_fuel(pow10, 6);
        }
        crate::digits::lemma_val_bound(t@.subrange(ds as int, end1 as int));
        crate::digits::lemma_pow10_mono(t@.subrange(ds as int, end1 as int).len() as nat, 20);
        crate::digits::lemma_pow10_20();
        assert(fr128 < 100_000);
        assert(ip128 < 100_000_000_000_000_000_000);
    }
    let scale: u64 = match end2 - fs {
        1 => 10_000,
        2 => 1_000,
        3 => 100,
        4 => 10,
        _ => 1,
    };
    proof {
        reveal_with_fuel(pow10, 6);
        assert(scale as nat == pow10((5 - (end2 - fs)) as nat));
        assert(fr128 as u64 <= 99_999 && scale <= 10_000);
        assert((fr128 as u64) as int * (scale as int) <= 999_990_000) by (nonlinear_arith)
            requires
                (fr128 as u64) as int <= 99_999,
                0 <= (fr128 as u64) as int,
                0 <= (scale as int) <= 10_000,
        ;
    }
    let frtotal: u64 = (fr128 as u64) * scale;
    let scaled128: u128 = ip128 * 100_000u128 + (frtotal as u128);
    proof {
        assert(frtotal < 100_000) by {
            reveal_with_fuel(pow10, 6);
            crate::digits::lemma_pow10_mul((end2 - fs) as nat, (5 - (end2 - fs)) as nat);
            assert(fr128 as int == val(t@.subrange(fs as int, end2 as int)));
            assert((fr128 as int) * (scale as int) < 100_000) by (nonlinear_arith)
                requires
                    (fr128 as int) < pow10((end2 - fs) as nat),
                    (scale as int) == pow10((5 - (end2 - fs)) as nat),
                    pow10((end2 - fs) as nat) * pow10((5 - (end2 - fs)) as nat) == 100_000,
                    fr128 >= 0,
                    scale >= 1,
            ;
        }
    }
    if neg {
        if scaled128 == 0 || scaled128 > 9_223_372_036_854_775_808u128 {
            proof {
                assert forall|w: int|
                    #![trigger data_rep(w)]
                    (i64::MIN <= w <= i64::MAX && i + data_rep(w).len() <= t@.len() && t@.subrange(
                        i as int,
                        i as int + data_rep(w).len() as int,
                    ) == data_rep(w) && (i + data_rep(w).len() == t@.len() || !is_digit(
                        t@[i as int + data_rep(w).len() as int],
                    ))) implies false by {
                    lemma_data_run_facts2(
                        t@,
                        i as int,
                        w,
                        neg,
                        ds as int,
                        end1 as int,
                        end2 as int,
                    );
                    let aw = if w < 0 { -w } else { w };
                    assert(w < 0);
                    assert(ip128 as int == val(t@.subrange(ds as int, end1 as int)));
                    assert(frtotal as int == val(t@.subrange(end1 as int + 1, end2 as int))
                        * pow10((5 - (end2 - end1 - 1)) as nat));
                    assert(scaled128 as int == aw);
                }
            }
            return None;
        }
        let v: i64 = (-(scaled128 as i128)) as i64;
        proof {
            lemma_data_parse_sound(
                t@,
                i as int,
                v as int,
                ds as int,
                end1 as int,
                end2 as int,
                ip128 as int,
                frtotal as int,
            );
            assert forall|w: int|
                #![trigger data_rep(w)]
                (i64::MIN <= w <= i64::MAX && i + data_rep(w).len() <= t@.len() && t@.subrange(
                    i as int,
                    i as int + data_rep(w).len() as int,
                ) == data_rep(w) && (i + data_rep(w).len() == t@.len() || !is_digit(
                    t@[i as int + data_rep(w).len() as int],
                ))) implies (v as int == w && end2 as int == i + data_rep(w).len()) by {
                lemma_data_run_facts2(
                    t@,
                    i as int,
                    w,
                    neg,
                    ds as int,
                    end1 as int,
                    end2 as int,
                );
                let aw = if w < 0 { -w } else { w };
                assert(w < 0);
                assert(ip128 as int == val(t@.subrange(ds as int, end1 as int)));
                assert(frtotal as int == val(t@.subrange(end1 as int + 1, end2 as int))
                    * pow10((5 - (end2 - end1 - 1)) as nat));
                assert(scaled128 as int == aw);
                assert(v as int == w);
            }
        }
        Some((v, end2))
    } else {
        if scaled128 > 9_223_372_036_854_775_807u128 {
            proof {
                assert forall|w: int|
                    #![trigger data_rep(w)]
                    (i64::MIN <= w <= i64::MAX && i + data_rep(w).len() <= t@.len() && t@.subrange(
                        i as int,
                        i as int + data_rep(w).len() as int,
                    ) == data_rep(w) && (i + data_rep(w).len() == t@.len() || !is_digit(
                        t@[i as int + data_rep(w).len() as int],
                    ))) implies false by {
                    lemma_data_run_facts2(
                        t@,
                        i as int,
                        w,
                        neg,
                        ds as int,
                        end1 as int,
                        end2 as int,
                    );
                    let aw = if w < 0 { -w } else { w };
                    assert(w >= 0);
                    assert(ip128 as int == val(t@.subrange(ds as int, end1 as int)));
                    assert(frtotal as int == val(t@.subrange(end1 as int + 1, end2 as int))
                        * pow10((5 - (end2 - end1 - 1)) as nat));
                    assert(scaled128 as int == aw);
                }
            }
            return None;
        }
        let v: i64 = scaled128 as i64;
        proof {
            lemma_data_parse_sound(
                t@,
                i as int,
                v as int,
                ds as int,
                end1 as int,
                end2 as int,
                ip128 as int,
                frtotal as int,
            );
            assert forall|w: int|
                #![trigger data_rep(w)]
                (i64::MIN <= w <= i64::MAX && i + data_rep(w).len() <= t@.len() && t@.subrange(
                    i as int,
                    i as int + data_rep(w).len() as int,
                ) == data_rep(w) && (i + data_rep(w).len() == t@.len() || !is_digit(
                    t@[i as int + data_rep(w).len() as int],
                ))) implies (v as int == w && end2 as int == i + data_rep(w).len()) by {
                lemma_data_run_facts2(
                    t@,
                    i as int,
                    w,
                    neg,
                    ds as int,
                    end1 as int,
                    end2 as int,
                );
                let aw = if w < 0 { -w } else { w };
                assert(w >= 0);
                assert(ip128 as int == val(t@.subrange(ds as int, end1 as int)));
                assert(frtotal as int == val(t@.subrange(end1 as int + 1, end2 as int))
                    * pow10((5 - (end2 - end1 - 1)) as nat));
                assert(scaled128 as int == aw);
                assert(v as int == w);
            }
        }
        Some((v, end2))
    }
}

/// The consumed text of a successful `parse_data` is exactly `data_rep`
/// of the value it returns.
proof fn lemma_data_parse_sound(
    t: Seq<char>,
    i: int,
    v: int,
    ds: int,
    end1: int,
    end2: int,
    ip: int,
    frtotal: int,
)
    requires
        0 <= i <= ds <= t.len(),
        ds == i || (ds == i + 1 && t[i] == '-'),
        ds < end1 < t.len(),
        end1 - ds <= 20,
        t[end1] == '.',
        end1 + 1 <= end2 <= t.len(),
        1 <= end2 - (end1 + 1) <= 5,
        forall|k: int| ds <= k < end1 ==> is_digit(#[trigger] t[k]),
        forall|k: int| end1 + 1 <= k < end2 ==> is_digit(#[trigger] t[k]),
        !(t[ds] == '0' && end1 - ds > 1),
        end2 - (end1 + 1) == 1 || t[end2 - 1] != '0',
        ip == val(t.subrange(ds, end1)),
        frtotal == val(t.subrange(end1 + 1, end2)) * pow10((5 - (end2 - (end1 + 1))) as nat),
        0 <= frtotal < 100_000,
        ip >= 0,
        (if v < 0 {
            -v
        } else {
            v
        }) == ip * 100_000 + frtotal,
        v < 0 ==> ds == i + 1,
        v >= 0 ==> ds == i,
        v < 0 ==> ip * 100_000 + frtotal >= 1,
    ensures
        t.subrange(i, end2) == data_rep(v),
{
    let a = (if v < 0 {
        -v
    } else {
        v
    }) as nat;
    let run1 = t.subrange(ds, end1);
    let run2 = t.subrange(end1 + 1, end2);
    assert(all_digits(run1)) by {
        assert(forall|k: int| 0 <= k < run1.len() ==> run1[k] == t[ds + k]);
    }
    assert(all_digits(run2)) by {
        assert(forall|k: int| 0 <= k < run2.len() ==> run2[k] == t[end1 + 1 + k]);
    }
    assert(run1[0] == t[ds]);
    lemma_dec_rep_val_inv(run1);
    assert(a == ip * 100_000 + frtotal);
    assert(a / 100_000 == ip && a % 100_000 == frtotal);
    assert(dec_rep((a / 100_000) as nat) == run1);
    assert(run2.len() == 1 || run2.last() != '0') by {
        if run2.len() > 1 {
            assert(run2.last() == t[end2 - 1]);
        }
    }
    crate::digits::lemma_strip_pad(run2, 5);
    assert(crate::digits::strip_tz(
        crate::digits::padded((val(run2) * pow10((5 - run2.len()) as nat)) as nat, 5),
    ) == run2);
    assert(crate::digits::strip_tz(crate::digits::padded((a % 100_000) as nat, 5)) == run2);
    let sign: Seq<char> = if v < 0 {
        seq!['-']
    } else {
        Seq::<char>::empty()
    };
    assert(data_rep(v) == sign + run1 + seq!['.'] + run2);
    assert(t.subrange(i, end2) =~= sign + run1 + seq!['.'] + run2) by {
        assert forall|k: int| 0 <= k < end2 - i implies t.subrange(i, end2)[k] == (sign + run1
            + seq!['.'] + run2)[k] by {
            assert(t.subrange(i, end2)[k] == t[i + k]);
            let so = sign.len() as int;
            if k < so {
                assert(t[i] == '-');
            } else if k < so + run1.len() {
                assert(run1[k - so] == t[ds + k - so]);
            } else if k == so + run1.len() {
                assert(t[i + k] == t[end1]);
            } else {
                assert(run2[k - so - run1.len() - 1] == t[end1 + 1 + k - so - run1.len() - 1]);
            }
        }
    }
}

/// How the canonical payload of `v` decomposes into its thirteen pieces:
/// the offset and content of every literal, number and field, and the
/// terminator characters the parsers rely on.
#[verifier::rlimit(100)]
proof fn lemma_payload_decompose(u: Seq<char>, v: MeasurementView)
    requires
        u == payload_rep(v),
    ensures
        ({
            let tl = int_rep(v.time).len() as int;
            let dl = data_rep(v.data).len() as int;
            let o2 = 8 + tl;
            let o3 = o2 + 8;
            let o4 = o3 + dl;
            let o5 = o4 + 9;
            let o6 = o5 + escape(v.unit).len() as int;
            let o7 = o6 + 8;
            let o8 = o7 + escape(v.id).len() as int;
            let o9 = o8 + 15;
            let o10 = o9 + escape(v.sensor_id).len() as int;
            let o11 = o10 + 14;
            let o12 = o11 + escape(v.location).len() as int;
            u.len() == o12 + 2
                && u.subrange(0, 8) == ("{\"time\":")@
                && u.subrange(8, o2) == int_rep(v.time)
                && u[o2] == ','
                && u.subrange(o2, o3) == (",\"data\":")@
                && u.subrange(o3, o4) == data_rep(v.data)
                && u[o4] == ','
                && u.subrange(o4, o5) == (",\"unit\":\"")@
                && u.subrange(o5, o6) == escape(v.unit)
                && u[o6] == '"'
                && u.subrange(o6, o7) == ("\",\"id\":\"")@
                && u.subrange(o7, o8) == escape(v.id)
                && u[o8] == '"'
                && u.subrange(o8, o9) == ("\",\"sensor_id\":\"")@
                && u.subrange(o9, o10) == escape(v.sensor_id)
                && u[o10] == '"'
                && u.subrange(o10, o11) == ("\",\"location\":\"")@
                && u.subrange(o11, o12) == escape(v.location)
                && u[o12] == '"'
                && u.subrange(o12, o12 + 2) == ("\"}")@
        }),
{
    reveal_strlit("{\"time\":");
    reveal_strlit(",\"data\":");
    reveal_strlit(",\"unit\":\"");
    reveal_strlit("\",\"id\":\"");
    reveal_strlit("\",\"sensor_id\":\"");
    reveal_strlit("\",\"location\":\"");
    reveal_strlit("\"}");
    let p1 = ("{\"time\":")@;
    let p2 = (",\"data\":")@;
    let p3 = (",\"unit\":\"")@;
    let p4 = ("\",\"id\":\"")@;
    let p5 = ("\",\"sensor_id\":\"")@;
    let p6 = ("\",\"location\":\"")@;
    let p7 = ("\"}")@;
    let tl = int_rep(v.time).len() as int;
    let dl = data_rep(v.data).len() as int;
    let o2 = 8 + tl;
    let o3 = o2 + 8;
    let o4 = o3 + dl;
    let o5 = o4 + 9;
    let o6 = o5 + escape(v.unit).len() as int;
    let o7 = o6 + 8;
    let o8 = o7 + escape(v.id).len() as int;
    let o9 = o8 + 15;
    let o10 = o9 + escape(v.sensor_id).len() as int;
    let o11 = o10 + 14;
    let o12 = o11 + escape(v.location).len() as int;
    assert(p1.len() == 8 && p2.len() == 8 && p3.len() == 9 && p4.len() == 8 && p5.len() == 15
        && p6.len() == 14 && p7.len() == 2);
    assert(u.len() == o12 + 2);
    assert(u.subrange(0, 8) =~= p1);
    assert(u.subrange(8, o2) =~= int_rep(v.time));
    assert(u.subrange(o2, o3) =~= p2);
    assert(u[o2] == p2[0]);
    assert(u.subrange(o3, o4) =~= data_rep(v.data));
    assert(u.subrange(o4, o5) =~= p3);
    assert(u[o4] == p3[0]);
    assert(u.subrange(o5, o6) =~= escape(v.unit));
    assert(u.subrange(o6, o7) =~= p4);
    assert(u[o6] == p4[0]);
    assert(u.subrange(o7, o8) =~= escape(v.id));
    assert(u.subrange(o8, o9) =~= p5);
    assert(u[o8] == p5[0]);
    assert(u.subrange(o9, o10) =~= escape(v.sensor_id));
    assert(u.subrange(o10, o11) =~= p6);
    assert(u[o10] == p6[0]);
    assert(u.subrange(o11, o12) =~= escape(v.location));
    assert(u.subrange(o12, o12 + 2) =~= p7);
    assert(u[o12] == p7[0]);
}

/// First stage of the strict parse: the leading literal, the timestamp,
/// the data value, and the literal that opens the unit field. The second
/// ensures clause says the stage cannot fail, and returns exactly the
/// right values, whenever the whole input is a canonical payload.
#[verifier::rlimit(100)]
fn parse_prefix(u: &Vec<char>) -> (r: Option<(i64, i64, usize)>)
    ensures
        match r {
            Some(p) => p.2 <= u.len() && u@.subrange(0, p.2 as int) == ("{\"time\":")@ + int_rep(
                p.0 as int,
            ) + (",\"data\":")@ + data_rep(p.1 as int) + (",\"unit\":\"")@,
            None => true,
        },
        forall|v: MeasurementView|
            #![trigger payload_rep(v)]
            (crate::measurement::wf(v) && u@ == payload_rep(v)) ==> (match r {
                Some(p) => p.0 as int == v.time && p.1 as int == v.data && p.2 as int == 25
                    + int_rep(v.time).len() + data_rep(v.data).len(),
                None => false,
            }),
{
    let l1 = ext::str_chars("{\"time\":");
    let l2 = ext::str_chars(",\"data\":");
    let l3 = ext::str_chars(",\"unit\":\"");
    let n = u.len();
    proof {
        reveal_strlit("{\"time\":");
        reveal_strlit(",\"data\":");
        reveal_strlit(",\"unit\":\"");
        assert(l1@.len() == 8 && l2@.len() == 8 && l3@.len() == 9);
        assert(u@.len() == n as int);
    }
    if !match_lit(u, 0, &l1) {
        proof {
            assert forall|v: MeasurementView|
                crate::measurement::wf(v) && u@ == payload_rep(v) implies false by {
                lemma_payload_decompose(u@, v);
            }
        }
        return None;
    }
    let p_time = match parse_int(u, 8) {
        Some(p) => p,
        None => {
            proof {
                assert forall|v: MeasurementView|
                    crate::measurement::wf(v) && u@ == payload_rep(v) implies false by {
                    lemma_payload_decompose(u@, v);
                }
            }
            return None;
        },
    };
    let i2 = p_time.1;
    if !match_lit(u, i2, &l2) {
        proof {
            assert forall|v: MeasurementView|
                crate::measurement::wf(v) && u@ == payload_rep(v) implies false by {
                lemma_payload_decompose(u@, v);
            }
        }
        return None;
    }
    let p_data = match parse_data(u, i2 + 8) {
        Some(p) => p,
        None => {
            proof {
                assert forall|v: MeasurementView|
                    crate::measurement::wf(v) && u@ == payload_rep(v) implies false by {
                    lemma_payload_decompose(u@, v);
                }
            }
            return None;
        },
    };
    let i4 = p_data.1;
    if !match_lit(u, i4, &l3) {
        proof {
            assert forall|v: MeasurementView|
                crate::measurement::wf(v) && u@ == payload_rep(v) implies false by {
                lemma_payload_decompose(u@, v);
            }
        }
        return None;
    }
    proof {
        assert(u@.subrange(0, i4 as int + 9) =~= ("{\"time\":")@ + int_rep(p_time.0 as int) + (
        ",\"data\":")@ + data_rep(p_data.0 as int) + (",\"unit\":\"")@);
        assert forall|v: MeasurementView|
            crate::measurement::wf(v) && u@ == payload_rep(v) implies (p_time.0 as int == v.time
            && p_data.0 as int == v.data && i4 as int + 9 == 25 + int_rep(v.time).len()
            + data_rep(v.data).len()) by {
            lemma_payload_decompose(u@, v);
        }
    }
    Some((p_time.0, p_data.0, i4 + 9))
}

/// One quoted string field (escapes undone) and the literal that closes
/// it and opens what follows.
fn parse_field(u: &Vec<char>, i: usize, nextlit: &Vec<char>) -> (r: Option<(String, usize)>)
    requires
        i <= u.len(),
        nextlit@.len() >= 1,
        nextlit@[0] == '"',
    ensures
        (match r {
            Some(p) => i + escape(p.0@).len() + nextlit@.len() == p.1 && p.1 <= u.len()
                && u@.subrange(i as int, i as int + escape(p.0@).len() as int) == escape(p.0@)
                && u@.subrange(i as int + escape(p.0@).len() as int, p.1 as int) == nextlit@,
            None => true,
        }),
        forall|f: Seq<char>|
            #![trigger escape(f)]
            (i + escape(f).len() + nextlit@.len() <= u@.len() && u@.subrange(
                i as int,
                i as int + escape(f).len() as int,
            ) == escape(f) && u@.subrange(
                i as int + escape(f).len() as int,
                i as int + escape(f).len() as int + nextlit@.len() as int,
            ) == nextlit@) ==> (match r {
                Some(p) => p.0@ == f && p.1 as int == i + escape(f).len() + nextlit@.len(),
                None => false,
            }),
{
    let p_s = match parse_string(u, i) {
        Some(p) => p,
        None => {
            proof {
                assert forall|f: Seq<char>|
                    #![trigger escape(f)]
                    (i + escape(f).len() + nextlit@.len() <= u@.len() && u@.subrange(
                        i as int,
                        i as int + escape(f).len() as int,
                    ) == escape(f) && u@.subrange(
                        i as int + escape(f).len() as int,
                        i as int + escape(f).len() as int + nextlit@.len() as int,
                    ) == nextlit@) implies false by {
                    let le = escape(f).len() as int;
                    assert(u@[i + le] == u@.subrange(i + le, i + le + nextlit@.len() as int)[0]);
                    assert(u@[i + le] == '"');
                }
            }
            return None;
        },
    };
    let q = p_s.1;
    if !match_lit(u, q, nextlit) {
        proof {
            assert forall|f: Seq<char>|
                #![trigger escape(f)]
                (i + escape(f).len() + nextlit@.len() <= u@.len() && u@.subrange(
                    i as int,
                    i as int + escape(f).len() as int,
                ) == escape(f) && u@.subrange(
                    i as int + escape(f).len() as int,
                    i as int + escape(f).len() as int + nextlit@.len() as int,
                ) == nextlit@) implies false by {
                let le = escape(f).len() as int;
                assert(u@[i + le] == u@.subrange(i + le, i + le + nextlit@.len() as int)[0]);
                assert(u@[i + le] == '"');
                assert(q as int == i + le && p_s.0@ == f);
            }
        }
        return None;
    }
    proof {
        assert forall|f: Seq<char>|
            #![trigger escape(f)]
            (i + escape(f).len() + nextlit@.len() <= u@.len() && u@.subrange(
                i as int,
                i as int + escape(f).len() as int,
            ) == escape(f) && u@.subrange(
                i as int + escape(f).len() as int,
                i as int + escape(f).len() as int + nextlit@.len() as int,
            ) == nextlit@) implies (p_s.0@ == f && q + nextlit@.len() == i + escape(f).len()
            + nextlit@.len()) by {
            let le = escape(f).len() as int;
            assert(u@[i + le] == u@.subrange(i + le, i + le + nextlit@.len() as int)[0]);
            assert(u@[i + le] == '"');
        }
    }
    Some((p_s.0, q + nextlit.len()))
}

/// Second stage of the strict parse: the unit and id fields and the
/// literals that close them.
#[verifier::rlimit(100)]
fn parse_fields_front(u: &Vec<char>, i: usize) -> (r: Option<(String, String, usize)>)
    requires
        i <= u.len(),
    ensures
        match r {
            Some(p) => p.2 <= u.len() && p.2 as int == i + escape(p.0@).len() + 8 + escape(
                p.1@,
            ).len() + 15 && u@.subrange(i as int, p.2 as int) == escape(p.0@) + ("\",\"id\":\"")@
                + escape(p.1@) + ("\",\"sensor_id\":\"")@,
            None => true,
        },
        forall|v: MeasurementView|
            #![trigger payload_rep(v)]
            (crate::measurement::wf(v) && u@ == payload_rep(v) && i as int == 25 + int_rep(
                v.time,
            ).len() + data_rep(v.data).len()) ==> (match r {
                Some(p) => p.0@ == v.unit && p.1@ == v.id && p.2 as int == 48 + int_rep(
                    v.time,
                ).len() + data_rep(v.data).len() + escape(v.unit).len() + escape(v.id).len(),
                None => false,
            }),
{
    let l4 = ext::str_chars("\",\"id\":\"");
    let l5 = ext::str_chars("\",\"sensor_id\":\"");
    proof {
        reveal_strlit("\",\"id\":\"");
        reveal_strlit("\",\"sensor_id\":\"");
        assert(l4@.len() == 8 && l5@.len() == 15);
    }
    let p_unit = match parse_field(u, i, &l4) {
        Some(p) => p,
        None => {
            proof {
                assert forall|v: MeasurementView|
                    crate::measurement::wf(v) && u@ == payload_rep(v) && i as int == 25 + int_rep(
                        v.time,
                    ).len() + data_rep(v.data).len() implies false by {
                    lemma_payload_decompose(u@, v);
                }
            }
            return None;
        },
    };
    let p_id = match parse_field(u, p_unit.1, &l5) {
        Some(p) => p,
        None => {
            proof {
                assert forall|v: MeasurementView|
                    crate::measurement::wf(v) && u@ == payload_rep(v) && i as int == 25 + int_rep(
                        v.time,
                    ).len() + data_rep(v.data).len() implies false by {
                    lemma_payload_decompose(u@, v);
                }
            }
            return None;
        },
    };
    proof {
        assert(u@.subrange(i as int, p_unit.1 as int) =~= escape(p_unit.0@) + (
        "\",\"id\":\"")@);
        assert(u@.subrange(p_unit.1 as int, p_id.1 as int) =~= escape(p_id.0@) + (
        "\",\"sensor_id\":\"")@);
        assert(u@.subrange(i as int, p_id.1 as int) =~= u@.subrange(i as int, p_unit.1 as int)
            + u@.subrange(p_unit.1 as int, p_id.1 as int));
        assert(u@.subrange(i as int, p_id.1 as int) =~= escape(p_unit.0@) + ("\",\"id\":\"")@
            + escape(p_id.0@) + ("\",\"sensor_id\":\"")@);
        assert forall|v: MeasurementView|
            crate::measurement::wf(v) && u@ == payload_rep(v) && i as int == 25 + int_rep(
                v.time,
            ).len() + data_rep(v.data).len() implies (p_unit.0@ == v.unit && p_id.0@ == v.id
            && p_id.1 as int == 48 + int_rep(v.time).len() + data_rep(v.data).len() + escape(
            v.unit,
        ).len() + escape(v.id).len()) by {
            lemma_payload_decompose(u@, v);
        }
    }
    Some((p_unit.0, p_id.0, p_id.1))
}

/// Third stage of the strict parse: the sensor id and location fields and
/// the closing brace, which must end the input.
#[verifier::rlimit(100)]
fn parse_fields_back(u: &Vec<char>, i: usize) -> (r: Option<(String, String)>)
    requires
        i <= u.len(),
    ensures
        match r {
            Some(p) => u@.subrange(i as int, u@.len() as int) == escape(p.0@) + (
            "\",\"location\":\"")@ + escape(p.1@) + ("\"}")@,
            None => true,
        },
        forall|v: MeasurementView|
            #![trigger payload_rep(v)]
            (crate::measurement::wf(v) && u@ == payload_rep(v) && i as int == 48 + int_rep(
                v.time,
            ).len() + data_rep(v.data).len() + escape(v.unit).len() + escape(v.id).len()) ==> (match r {
                Some(p) => p.0@ == v.sensor_id && p.1@ == v.location,
                None => false,
            }),
{
    let l6 = ext::str_chars("\",\"location\":\"");
    let l7 = ext::str_chars("\"}");
    let n = u.len();
    proof {
        reveal_strlit("\",\"location\":\"");
        reveal_strlit("\"}");
        assert(l6@.len() == 14 && l7@.len() == 2);
        assert(u@.len() == n as int);
    }
    let p_sid = match parse_field(u, i, &l6) {
        Some(p) => p,
        None => {
            proof {
                assert forall|v: MeasurementView|
                    crate::measurement::wf(v) && u@ == payload_rep(v) && i as int == 48 + int_rep(
                        v.time,
                    ).len() + data_rep(v.data).len() + escape(v.unit).len() + escape(v.id).len() implies false by {
                    lemma_payload_decompose(u@, v);
                }
            }
            return None;
        },
    };
    let p_loc = match parse_field(u, p_sid.1, &l7) {
        Some(p) => p,
        None => {
            proof {
                assert forall|v: MeasurementView|
                    crate::measurement::wf(v) && u@ == payload_rep(v) && i as int == 48 + int_rep(
                        v.time,
                    ).len() + data_rep(v.data).len() + escape(v.unit).len() + escape(v.id).len() implies false by {
                    lemma_payload_decompose(u@, v);
                }
            }
            return None;
        },
    };
    if p_loc.1 != n {
        proof {
            assert forall|v: MeasurementView|
                crate::measurement::wf(v) && u@ == payload_rep(v) && i as int == 48 + int_rep(
                    v.time,
                ).len() + data_rep(v.data).len() + escape(v.unit).len() + escape(v.id).len() implies false by {
                lemma_payload_decompose(u@, v);
            }
        }
        return None;
    }
    proof {
        assert(u@.subrange(i as int, p_sid.1 as int) =~= escape(p_sid.0@) + (
        "\",\"location\":\"")@);
        assert(u@.subrange(p_sid.1 as int, u@.len() as int) =~= escape(p_loc.0@) + ("\"}")@);
        assert(u@.subrange(i as int, u@.len() as int) =~= u@.subrange(i as int, p_sid.1 as int)
            + u@.subrange(p_sid.1 as int, u@.len() as int));
        assert(u@.subrange(i as int, u@.len() as int) =~= escape(p_sid.0@) + (
        "\",\"location\":\"")@ + escape(p_loc.0@) + ("\"}")@);
        assert forall|v: MeasurementView|
            crate::measurement::wf(v) && u@ == payload_rep(v) && i as int == 48 + int_rep(
                v.time,
            ).len() + data_rep(v.data).len() + escape(v.unit).len() + escape(v.id).len() implies (p_sid.0@
            == v.sensor_id && p_loc.0@ == v.location) by {
            lemma_payload_decompose(u@, v);
        }
    }
    Some((p_sid.0, p_loc.0))
}

/// Strict parse of a whitespace-free payload. Succeeds exactly on the
/// canonical encoding of a well-formed measurement and returns it.
#[verifier::rlimit(100)]
fn parse_payload(u: &Vec<char>) -> (r: Result<SoilMoistureMeasurement, DecodeError>)
    ensures
        match r {
            Ok(m) => crate::measurement::wf(m@) && u@ == payload_rep(m@) && (forall|
                v: MeasurementView,
            |
                crate::measurement::wf(v) && u@ == payload_rep(v) ==> v == m@),
            Err(_) => forall|v: MeasurementView|
                crate::measurement::wf(v) ==> u@ != payload_rep(v),
        },
{
    let pre = match parse_prefix(u) {
        Some(p) => p,
        None => {
            return Err(DecodeError::Malformed);
        },
    };
    let i5 = pre.2;
    let front = match parse_fields_front(u, i5) {
        Some(p) => p,
        None => {
            return Err(DecodeError::Malformed);
        },
    };
    let i9 = front.2;
    let back = match parse_fields_back(u, i9) {
        Some(p) => p,
        None => {
            return Err(DecodeError::Malformed);
        },
    };
    let m = SoilMoistureMeasurement {
        time: pre.0,
        data: crate::measurement::DataValue { scaled: pre.1 },
        unit: front.0,
        id: front.1,
        sensor_id: back.0,
        location: back.1,
    };
    proof {
        reveal_strlit("{\"time\":");
        reveal_strlit(",\"data\":");
        reveal_strlit(",\"unit\":\"");
        assert(u@.subrange(0, u@.len() as int) =~= u@);
        assert(u@ =~= u@.subrange(0, i5 as int) + u@.subrange(i5 as int, i9 as int) + u@.subrange(
            i9 as int,
            u@.len() as int,
        ));
        assert(u@ =~= payload_rep(m@));
        assert forall|v: MeasurementView|
            crate::measurement::wf(v) && u@ == payload_rep(v) implies v == m@ by {
            lemma_payload_decompose(u@, v);
        }
    }
    Ok(m)
}

impl SoilMoistureMeasurement {
    /// Encode this measurement as the wire payload: the canonical text
    /// with the string fields escaped, so that any string content can be
    /// carried. Never fails for any measurement; the error side exists
    /// only because the encoding API reports encoder-internal failure,
    /// which cannot happen.
    pub fn into_payload(&self) -> (r: Result<String, EncodeError>)
        ensures
            r matches Ok(s) && s@ == payload_rep(self@),
    {
        let mut out: Vec<char> = Vec::new();
        crate::query::append_str(&mut out, "{\"time\":");
        crate::digits::push_int(&mut out, self.time);
        crate::query::append_str(&mut out, ",\"data\":");
        crate::digits::push_data(&mut out, self.data.scaled);
        crate::query::append_str(&mut out, ",\"unit\":\"");
        append_escaped(&mut out, self.unit.as_str());
        crate::query::append_str(&mut out, "\",\"id\":\"");
        append_escaped(&mut out, self.id.as_str());
        crate::query::append_str(&mut out, "\",\"sensor_id\":\"");
        append_escaped(&mut out, self.sensor_id.as_str());
        crate::query::append_str(&mut out, "\",\"location\":\"");
        append_escaped(&mut out, self.location.as_str());
        crate::query::append_str(&mut out, "\"}");
        proof {
            assert(out@ =~= payload_rep(self@));
        }
        Ok(ext::chars_to_string(&out))
    }

    /// Decode a payload. The exact inverse of `into_payload`: succeeds
    /// precisely when the input, with whitespace outside string fields
    /// removed, is the canonical encoding of some well-formed
    /// measurement, and returns exactly that measurement.
    pub fn from_payload(payload: &str) -> (r: Result<Self, DecodeError>)
        ensures
            match r {
                Ok(m) => crate::measurement::wf(m@) && strip_ws(payload@) == payload_rep(m@) && (
                forall|v: MeasurementView|
                    crate::measurement::wf(v) && strip_ws(payload@) == payload_rep(v) ==> v
                        == m@),
                Err(_) => forall|v: MeasurementView|
                    crate::measurement::wf(v) ==> strip_ws(payload@) != payload_rep(v),
            },
    {
        let cs = ext::str_chars(payload);
        let u = strip_ws_vec(&cs);
        parse_payload(&u)
    }
}

/// Parse one payload into a measurement: the decoding entry point used on
/// the subscriber's ingestion path.
pub fn parse_soil_measurement(payload: &str) -> (r: Result<SoilMoistureMeasurement, DecodeError>)
    ensures
        match r {
            Ok(m) => crate::measurement::wf(m@) && strip_ws(payload@) == payload_rep(m@) && (
            forall|v: MeasurementView|
                crate::measurement::wf(v) && strip_ws(payload@) == payload_rep(v) ==> v == m@),
            Err(_) => forall|v: MeasurementView|
                crate::measurement::wf(v) ==> strip_ws(payload@) != payload_rep(v),
        },
{
    SoilMoistureMeasurement::from_payload(payload)
}

/// First half of the whitespace-identity walk: from the opening brace
/// through the colon before the unit field.
#[verifier::rlimit(100)]
proof fn lemma_strip_identity_front(v: MeasurementView)
    ensures
        ({
            let s = payload_rep(v);
            let p = 24 + int_rep(v.time).len() + data_rep(v.data).len();
            strip_from(s, 0, false) == s.subrange(0, p as int) + strip_from(s, p as int, false)
        }),
{
    reveal_strlit("{\"time\":");
    reveal_strlit(",\"data\":");
    reveal_strlit(",\"unit\":\"");
    reveal_strlit("\",\"id\":\"");
    reveal_strlit("\",\"sensor_id\":\"");
    reveal_strlit("\",\"location\":\"");
    reveal_strlit("\"}");
    let s = payload_rep(v);
    lemma_payload_decompose(s, v);
    let tl = int_rep(v.time).len() as int;
    let dl = data_rep(v.data).len() as int;
    let o2 = 8 + tl;
    let o3 = o2 + 8;
    let o4 = o3 + dl;
    lemma_int_rep_str_ok(v.time);
    lemma_data_rep_str_ok(v.data);
    // `{`
    lemma_strip_plain_seg(s, 0, 1);
    // `"time"`
    assert(esc_ok(s.subrange(2, 6))) by {
        lemma_plain_esc_ok(s.subrange(2, 6));
    }
    lemma_strip_quoted_seg(s, 1, 6);
    // `:` + timestamp + `,`
    assert forall|k: int| 7 <= k < o2 + 1 implies !is_ws(#[trigger] s[k]) && s[k] != '"' by {
        if 8 <= k < o2 {
            assert(s[k] == int_rep(v.time)[k - 8]);
            assert(str_ok(int_rep(v.time)));
        }
    }
    lemma_strip_plain_seg(s, 7, o2 + 1);
    // `"data"`
    assert(esc_ok(s.subrange(o2 + 2, o2 + 6))) by {
        lemma_plain_esc_ok(s.subrange(o2 + 2, o2 + 6));
    }
    lemma_strip_quoted_seg(s, o2 + 1, o2 + 6);
    // `:` + value + `,`
    assert forall|k: int| o2 + 7 <= k < o4 + 1 implies !is_ws(#[trigger] s[k]) && s[k] != '"' by {
        if o3 <= k < o4 {
            assert(s[k] == data_rep(v.data)[k - o3]);
            assert(str_ok(data_rep(v.data)));
        }
    }
    lemma_strip_plain_seg(s, o2 + 7, o4 + 1);
    // `"unit"`
    assert(esc_ok(s.subrange(o4 + 2, o4 + 6))) by {
        lemma_plain_esc_ok(s.subrange(o4 + 2, o4 + 6));
    }
    lemma_strip_quoted_seg(s, o4 + 1, o4 + 6);
    // `:`
    lemma_strip_plain_seg(s, o4 + 7, o4 + 8);
    assert(strip_from(s, 0, false) =~= s.subrange(0, o4 + 8) + strip_from(s, o4 + 8, false));
}

/// Second part of the whitespace-identity walk: the unit and id fields.
#[verifier::rlimit(100)]
proof fn lemma_strip_identity_mid(v: MeasurementView)
    ensures
        ({
            let s = payload_rep(v);
            let p = 24 + int_rep(v.time).len() + data_rep(v.data).len();
            let q = 47 + int_rep(v.time).len() + data_rep(v.data).len() + escape(v.unit).len()
                + escape(v.id).len();
            strip_from(s, p as int, false) == s.subrange(p as int, q as int) + strip_from(
                s,
                q as int,
                false,
            )
        }),
{
    reveal_strlit("{\"time\":");
    reveal_strlit(",\"data\":");
    reveal_strlit(",\"unit\":\"");
    reveal_strlit("\",\"id\":\"");
    reveal_strlit("\",\"sensor_id\":\"");
    reveal_strlit("\",\"location\":\"");
    reveal_strlit("\"}");
    let s = payload_rep(v);
    lemma_payload_decompose(s, v);
    let tl = int_rep(v.time).len() as int;
    let dl = data_rep(v.data).len() as int;
    let o4 = 16 + tl + dl;
    let o5 = o4 + 9;
    let o6 = o5 + escape(v.unit).len() as int;
    let o7 = o6 + 8;
    let o8 = o7 + escape(v.id).len() as int;
    lemma_escape_esc_ok(v.unit);
    lemma_escape_esc_ok(v.id);
    // the quoted unit field
    assert(esc_ok(s.subrange(o5, o6))) by {
        assert(s.subrange(o5, o6) == escape(v.unit));
    }
    lemma_strip_quoted_seg(s, o4 + 8, o6);
    // `,`
    lemma_strip_plain_seg(s, o6 + 1, o6 + 2);
    // `"id"`
    assert(esc_ok(s.subrange(o6 + 3, o6 + 5))) by {
        lemma_plain_esc_ok(s.subrange(o6 + 3, o6 + 5));
    }
    lemma_strip_quoted_seg(s, o6 + 2, o6 + 5);
    // `:`
    lemma_strip_plain_seg(s, o6 + 6, o6 + 7);
    // the quoted id field
    assert(esc_ok(s.subrange(o7, o8))) by {
        assert(s.subrange(o7, o8) == escape(v.id));
    }
    lemma_strip_quoted_seg(s, o6 + 7, o8);
    // `,`
    lemma_strip_plain_seg(s, o8 + 1, o8 + 2);
    // `"sensor_id"`
    assert(esc_ok(s.subrange(o8 + 3, o8 + 12))) by {
        lemma_plain_esc_ok(s.subrange(o8 + 3, o8 + 12));
    }
    lemma_strip_quoted_seg(s, o8 + 2, o8 + 12);
    // `:`
    lemma_strip_plain_seg(s, o8 + 13, o8 + 14);
    assert(strip_from(s, o4 + 8, false) =~= s.subrange(o4 + 8, o8 + 14) + strip_from(
        s,
        o8 + 14,
        false,
    ));
}

/// Last part of the whitespace-identity walk: the sensor id and location
/// fields and the closing brace.
#[verifier::rlimit(100)]
proof fn lemma_strip_identity_back(v: MeasurementView)
    ensures
        ({
            let s = payload_rep(v);
            let q = 47 + int_rep(v.time).len() + data_rep(v.data).len() + escape(v.unit).len()
                + escape(v.id).len();
            strip_from(s, q as int, false) == s.subrange(q as int, s.len() as int)
        }),
{
    reveal_strlit("{\"time\":");
    reveal_strlit(",\"data\":");
    reveal_strlit(",\"unit\":\"");
    reveal_strlit("\",\"id\":\"");
    reveal_strlit("\",\"sensor_id\":\"");
    reveal_strlit("\",\"location\":\"");
    reveal_strlit("\"}");
    let s = payload_rep(v);
    lemma_payload_decompose(s, v);
    let tl = int_rep(v.time).len() as int;
    let dl = data_rep(v.data).len() as int;
    let o8 = 33 + tl + dl + escape(v.unit).len() + escape(v.id).len();
    let o9 = o8 + 15;
    let o10 = o9 + escape(v.sensor_id).len() as int;
    let o11 = o10 + 14;
    let o12 = o11 + escape(v.location).len() as int;
    lemma_escape_esc_ok(v.sensor_id);
    lemma_escape_esc_ok(v.location);
    // the quoted sensor id field
    assert(esc_ok(s.subrange(o9, o10))) by {
        assert(s.subrange(o9, o10) == escape(v.sensor_id));
    }
    lemma_strip_quoted_seg(s, o8 + 14, o10);
    // `,`
    lemma_strip_plain_seg(s, o10 + 1, o10 + 2);
    // `"location"`
    assert(esc_ok(s.subrange(o10 + 3, o10 + 11))) by {
        lemma_plain_esc_ok(s.subrange(o10 + 3, o10 + 11));
    }
    lemma_strip_quoted_seg(s, o10 + 2, o10 + 11);
    // `:`
    lemma_strip_plain_seg(s, o10 + 12, o10 + 13);
    // the quoted location field
    assert(esc_ok(s.subrange(o11, o12))) by {
        assert(s.subrange(o11, o12) == escape(v.location));
    }
    lemma_strip_quoted_seg(s, o10 + 13, o12);
    // `}`
    lemma_strip_plain_seg(s, o12 + 1, o12 + 2);
    assert(strip_from(s, s.len() as int, false) =~= Seq::<char>::empty());
    assert(strip_from(s, o8 + 14, false) =~= s.subrange(o8 + 14, s.len() as int));
}

/// The canonical payload of any measurement has whitespace only inside
/// its string fields, so the whitespace pass keeps it unchanged.
pub proof fn lemma_strip_payload_identity(v: MeasurementView)
    ensures
        strip_ws(payload_rep(v)) == payload_rep(v),
{
    let s = payload_rep(v);
    let p = (24 + int_rep(v.time).len() + data_rep(v.data).len()) as int;
    let q = (47 + int_rep(v.time).len() + data_rep(v.data).len() + escape(v.unit).len() + escape(
        v.id,
    ).len()) as int;
    lemma_strip_identity_front(v);
    lemma_strip_identity_mid(v);
    lemma_strip_identity_back(v);
    assert(p <= q <= s.len()) by {
        lemma_payload_decompose(s, v);
    }
    assert(strip_ws(s) =~= s);
}

/// Round trip: decoding an encoded measurement gives back a measurement
/// equal to the original, field for field, whatever its fields hold.
pub fn decode_encoded(m: &SoilMoistureMeasurement) -> (r: SoilMoistureMeasurement)
    ensures
        r@ == m@,
{
    let payload = match m.into_payload() {
        Ok(s) => s,
        Err(_) => {
            proof {
                assert(false);
            }
            String::new()
        },
    };
    proof {
        lemma_strip_payload_identity(m@);
    }
    let decoded = SoilMoistureMeasurement::from_payload(payload.as_str());
    match decoded {
        Ok(m2) => m2,
        Err(_) => {
            proof {
                assert(false);
            }
            SoilMoistureMeasurement {
                time: 0,
                data: crate::measurement::DataValue { scaled: 0 },
                unit: String::new(),
                id: String::new(),
                sensor_id: String::new(),
                location: String::new(),
            }
        },
    }
}

} // verus!
