//! Names and paths: case folding for lookup, path components, parent
//! split and 8.3 encoding.
use vstd::prelude::*;
use vstd::string::*;

use crate::dir_entry::push_char;
use crate::fat::FatError;

verus! {

/// `c` with an ASCII lower-case letter made upper-case.
pub open spec fn upper(c: char) -> char {
    if 'a' <= c && c <= 'z' {
        ((c as u32 - 32) as u8) as char
    } else {
        c
    }
}

/// Every character of `s` through [`upper`].
pub open spec fn upper_seq(s: Seq<char>) -> Seq<char> {
    s.map_values(|c: char| upper(c))
}

/// Upper-cases one ASCII letter and leaves every other character alone.
pub fn ascii_upper(c: char) -> (r: char)
    ensures
        r == upper(c),
{
    if 'a' <= c && c <= 'z' {
        ((c as u32 - 32) as u8) as char
    } else {
        c
    }
}

/// The lookup form of a name: ASCII letters upper-cased.
pub fn normalize_name(s: &str) -> (r: String)
    ensures
        r@ == upper_seq(s@),
{
    let n = s.unicode_len();
    let mut out = String::new();
    let mut i: usize = 0;
    while i < n
        invariant
            n == s@.len(),
            i <= n,
            out@ == upper_seq(s@.subrange(0, i as int)),
        decreases n - i,
    {
        let c = s.get_char(i);
        push_char(&mut out, ascii_upper(c));
        assert(upper_seq(s@.subrange(0, i + 1)) =~= upper_seq(s@.subrange(0, i as int)).push(
            upper(c),
        ));
        i += 1;
    }
    assert(s@.subrange(0, n as int) =~= s@);
    out
}


/// Left-to-right scan of `s` that collects the non-empty runs between `/`
/// separators onto `acc`, `cur` being the run in progress.
pub open spec fn comps_acc(s: Seq<char>, acc: Seq<Seq<char>>, cur: Seq<char>) -> Seq<Seq<char>>
    decreases s.len(),
{
    if s.len() == 0 {
        if cur.len() > 0 {
            acc.push(cur)
        } else {
            acc
        }
    } else if s[0] == '/' {
        comps_acc(
            s.drop_first(),
            if cur.len() > 0 {
                acc.push(cur)
            } else {
                acc
            },
            seq![],
        )
    } else {
        comps_acc(s.drop_first(), acc, cur.push(s[0]))
    }
}

/// The components of a path: its non-empty pieces between slashes, in order.
pub open spec fn path_components(s: Seq<char>) -> Seq<Seq<char>> {
    comps_acc(s, seq![], seq![])
}

/// The views of a list of strings.
pub open spec fn views(v: Seq<String>) -> Seq<Seq<char>> {
    v.map_values(|x: String| x@)
}

/// Splits a path into its non-empty components.
pub fn components(path: &str) -> (r: Vec<String>)
    ensures
        views(r@) == path_components(path@),
{
    let n = path.unicode_len();
    let mut acc: Vec<String> = Vec::new();
    let mut cur = String::new();
    let mut i: usize = 0;
    assert(path@.subrange(0, n as int) =~= path@);
    assert(views(acc@) =~= Seq::<Seq<char>>::empty());
    assert(cur@ =~= Seq::<char>::empty());
    while i < n
        invariant
            n == path@.len(),
            i <= n,
            comps_acc(path@.subrange(i as int, n as int), views(acc@), cur@) == path_components(
                path@,
            ),
        decreases n - i,
    {
        let c = path.get_char(i);
        assert(path@.subrange(i as int, n as int).drop_first() =~= path@.subrange(i + 1, n as int));
        if c == '/' {
            if cur.as_str().unicode_len() > 0 {
                let ghost old_acc = views(acc@);
                acc.push(cur);
                assert(views(acc@) =~= old_acc.push(cur@));
                cur = String::new();
            } else {
                cur = String::new();
            }
            assert(cur@ =~= Seq::<char>::empty());
        } else {
            push_char(&mut cur, c);
        }
        i += 1;
    }
    if cur.as_str().unicode_len() > 0 {
        let ghost old_acc = views(acc@);
        acc.push(cur);
        assert(views(acc@) =~= old_acc.push(cur@));
    }
    acc
}

/// `s` without its trailing slashes.
pub open spec fn trim_slashes(s: Seq<char>) -> Seq<char>
    decreases s.len(),
{
    if s.len() > 0 && s.last() == '/' {
        trim_slashes(s.drop_last())
    } else {
        s
    }
}

/// The index of the last `c` in `s`, or -1.
pub open spec fn last_index_of(s: Seq<char>, c: char) -> int
    decreases s.len(),
{
    if s.len() == 0 {
        -1
    } else if s.last() == c {
        s.len() - 1
    } else {
        last_index_of(s.drop_last(), c)
    }
}

pub(crate) proof fn lemma_last_index_bounds(s: Seq<char>, c: char)
    ensures
        -1 <= last_index_of(s, c) < s.len(),
        last_index_of(s, c) >= 0 ==> s[last_index_of(s, c)] == c,
        forall|j: int| last_index_of(s, c) < j < s.len() ==> s[j] != c,
    decreases s.len(),
{
    if s.len() > 0 && s.last() != c {
        lemma_last_index_bounds(s.drop_last(), c);
        assert forall|j: int| last_index_of(s, c) < j < s.len() implies s[j] != c by {
            if j < s.len() - 1 {
                assert(s[j] == s.drop_last()[j]);
            }
        }
    }
}

/// Parent and last component of a path whose trailing slashes are dropped:
/// the parent is `/` when the last slash is the first character. `None`
/// when no slash is left.
pub open spec fn split_parent_spec(p: Seq<char>) -> Option<(Seq<char>, Seq<char>)> {
    let t = trim_slashes(p);
    let k = last_index_of(t, '/');
    if k < 0 {
        None
    } else {
        Some(
            (
                if k == 0 {
                    seq!['/']
                } else {
                    t.subrange(0, k)
                },
                t.subrange(k + 1, t.len() as int),
            ),
        )
    }
}

/// Index of the last `c` among the first `end` characters of `s`, or `None`.
fn rfind_char(s: &str, end: usize, c: char) -> (r: Option<usize>)
    requires
        end <= s@.len(),
    ensures
        match r {
            Some(k) => k as int == last_index_of(s@.subrange(0, end as int), c),
            None => last_index_of(s@.subrange(0, end as int), c) == -1,
        },
{
    let mut j = end;
    while j > 0
        invariant
            j <= end <= s@.len(),
            last_index_of(s@.subrange(0, j as int), c) == last_index_of(
                s@.subrange(0, end as int),
                c,
            ),
        decreases j,
    {
        assert(s@.subrange(0, j as int).drop_last() =~= s@.subrange(0, j - 1));
        if s.get_char(j - 1) == c {
            return Some(j - 1);
        }
        j -= 1;
    }
    None
}

/// Splits `"/A/B/C.TXT"` into `"/A/B"` and `"C.TXT"`.
pub fn split_parent(path: &str) -> (r: Result<(&str, &str), FatError>)
    ensures
        match r {
            Ok((p, n)) => split_parent_spec(path@) == Some((p@, n@)),
            Err(e) => e == FatError::Other && split_parent_spec(path@).is_none(),
        },
{
    let n = path.unicode_len();
    let mut end = n;
    assert(path@.subrange(0, n as int) =~= path@);
    while end > 0 && path.get_char(end - 1) == '/'
        invariant
            end <= n == path@.len(),
            trim_slashes(path@.subrange(0, end as int)) == trim_slashes(path@),
        decreases end,
    {
        assert(path@.subrange(0, end as int).drop_last() =~= path@.subrange(0, end - 1));
        end -= 1;
    }
    let ghost t = path@.subrange(0, end as int);
    assert(trim_slashes(t) == t);
    match rfind_char(path, end, '/') {
        None => Err(FatError::Other),
        Some(k) => {
            proof {
                lemma_last_index_bounds(t, '/');
            }
            let parent = if k == 0 {
                "/"
            } else {
                path.substring_char(0, k)
            };
            let name = path.substring_char(k + 1, end);
            proof {
                reveal_strlit("/");
                assert(t.subrange(k + 1, t.len() as int) =~= name@);
                if k > 0 {
                    assert(t.subrange(0, k as int) =~= parent@);
                } else {
                    assert(parent@ =~= seq!['/']);
                }
            }
            Ok((parent, name))
        }
    }
}


/// A character that may stand in a short name: ASCII and not a slash.
pub open spec fn short_char_ok(c: char) -> bool {
    (c as u32) < 128 && c != '/'
}

/// Base and extension of a name, split at its last dot.
pub open spec fn name_parts(s: Seq<char>) -> (Seq<char>, Seq<char>) {
    let d = last_index_of(s, '.');
    if d < 0 {
        (s, seq![])
    } else {
        (s.subrange(0, d), s.subrange(d + 1, s.len() as int))
    }
}

/// `s` upper-cased, one byte per character, padded with spaces to `w` bytes.
pub open spec fn padded_field(s: Seq<char>, w: nat) -> Seq<u8> {
    Seq::new(w, |i: int| if i < s.len() { upper(s[i]) as u8 } else { 0x20u8 })
}

/// The on-disk name and extension fields of a short name, or `None` when
/// the name is not a valid 8.3 name: base of 1 to 8 characters, extension of
/// at most 3, one dot at most, ASCII only, no slash.
pub open spec fn encode_spec(s: Seq<char>) -> Option<(Seq<u8>, Seq<u8>)> {
    let (b, x) = name_parts(s);
    if 1 <= b.len() <= 8 && x.len() <= 3 && !b.contains('.') && (forall|i: int|
        0 <= i < b.len() ==> short_char_ok(#[trigger] b[i])) && (forall|i: int|
        0 <= i < x.len() ==> short_char_ok(#[trigger] x[i])) {
        Some((padded_field(b, 8), padded_field(x, 3)))
    } else {
        None
    }
}

/// Fills a `w`-byte field from `s[from..to]`; `None` on a character that
/// cannot stand in a short name.
fn fill_field(s: &str, from: usize, to: usize, w: usize) -> (r: Option<Vec<u8>>)
    requires
        from <= to <= s@.len(),
        to - from <= w,
    ensures
        match r {
            Some(v) => (forall|i: int| from <= i < to ==> short_char_ok(#[trigger] s@[i])) && v@
                == padded_field(s@.subrange(from as int, to as int), w as nat),
            None => exists|i: int| from <= i < to && !short_char_ok(#[trigger] s@[i]),
        },
{
    let ghost part = s@.subrange(from as int, to as int);
    let mut v: Vec<u8> = Vec::new();
    let mut i: usize = 0;
    while i < w
        invariant
            from <= to <= s@.len(),
            to - from <= w,
            part == s@.subrange(from as int, to as int),
            i <= w,
            v@ == padded_field(part, w as nat).subrange(0, i as int),
            forall|j: int| from <= j < from + i && j < to ==> short_char_ok(#[trigger] s@[j]),
        decreases w - i,
    {
        if i < to - from {
            let c = s.get_char(from + i);
            if (c as u32) >= 128 || c == '/' {
                return None;
            }
            v.push(ascii_upper(c) as u8);
        } else {
            v.push(0x20u8);
        }
        assert(padded_field(part, w as nat).subrange(0, i + 1) =~= padded_field(
            part,
            w as nat,
        ).subrange(0, i as int).push(padded_field(part, w as nat)[i as int]));
        i += 1;
    }
    assert(v@ =~= padded_field(part, w as nat));
    Some(v)
}

/// Encodes a file name into its 8-byte name and 3-byte extension fields.
pub fn encode_short_name_8_3(name: &str) -> (r: Result<(Vec<u8>, Vec<u8>), FatError>)
    ensures
        match r {
            Ok((n, x)) => encode_spec(name@) == Some((n@, x@)),
            Err(e) => e == FatError::InvalidName && encode_spec(name@).is_none(),
        },
{
    let len = name.unicode_len();
    proof {
        lemma_last_index_bounds(name@, '.');
        assert(name@.subrange(0, len as int) =~= name@);
    }
    let (bend, xstart) = match rfind_char(name, len, '.') {
        Some(d) => (d, d + 1),
        None => (len, len),
    };
    let ghost b = name_parts(name@).0;
    let ghost x = name_parts(name@).1;
    assert(b =~= name@.subrange(0, bend as int));
    assert(x =~= name@.subrange(xstart as int, len as int));
    if bend == 0 || bend > 8 || len - xstart > 3 {
        return Err(FatError::InvalidName);
    }
    match rfind_char(name, bend, '.') {
        Some(_) => {
            proof {
                lemma_last_index_bounds(b, '.');
            }
            return Err(FatError::InvalidName);
        },
        None => {
            proof {
                lemma_last_index_bounds(b, '.');
                assert(!b.contains('.')) by {
                    if b.contains('.') {
                        let j = choose|j: int| 0 <= j < b.len() && b[j] == '.';
                        assert(b[j] != '.');
                    }
                }
            }
        },
    }
    let n = match fill_field(name, 0, bend, 8) {
        Some(v) => v,
        None => {
            proof {
                let j = choose|j: int| 0 <= j < bend && !short_char_ok(#[trigger] name@[j]);
                assert(!short_char_ok(b[j]));
            }
            return Err(FatError::InvalidName);
        },
    };
    let x_field = match fill_field(name, xstart, len, 3) {
        Some(v) => v,
        None => {
            proof {
                let j = choose|j: int| xstart <= j < len && !short_char_ok(#[trigger] name@[j]);
                assert(!short_char_ok(x[j - xstart]));
            }
            return Err(FatError::InvalidName);
        },
    };
    assert forall|i: int| 0 <= i < b.len() implies short_char_ok(#[trigger] b[i]) by {
        assert(b[i] == name@[i]);
    }
    assert forall|i: int| 0 <= i < x.len() implies short_char_ok(#[trigger] x[i]) by {
        assert(x[i] == name@[xstart + i]);
    }
    Ok((n, x_field))
}

/// `a / b` rounded up; 0 when `b` is 0.
pub open spec fn div_ceil_spec(a: nat, b: nat) -> nat {
    if b == 0 {
        0
    } else {
        ((a + b - 1) as int / b as int) as nat
    }
}

/// Integer division rounded up (0 for a zero divisor).
pub fn div_ceil(a: usize, b: usize) -> (r: usize)
    ensures
        r as nat == div_ceil_spec(a as nat, b as nat),
{
    if b == 0 {
        0
    } else {
        let q = a / b;
        proof {
            vstd::arithmetic::div_mod::lemma_fundamental_div_mod(a as int, b as int);
            if a % b != 0 {
                assert(q < usize::MAX) by (nonlinear_arith)
                    requires
                        a == b * q + a % b,
                        a % b != 0,
                        b >= 2,
                        a <= usize::MAX,
                ;
            }
        }
        let r = if a % b != 0 {
            q + 1
        } else {
            q
        };
        proof {
            vstd::arithmetic::div_mod::lemma_fundamental_div_mod(a as int, b as int);
            vstd::arithmetic::div_mod::lemma_fundamental_div_mod((a + b - 1) as int, b as int);
            assert((a + b - 1) / (b as int) == r) by (nonlinear_arith)
                requires
                    a == b * q + a % b,
                    0 <= a % b < b,
                    (a + b - 1) == b * ((a + b - 1) / (b as int)) + (a + b - 1) % (b as int),
                    0 <= (a + b - 1) % (b as int) < b,
                    a % b != 0 ==> r == q + 1,
                    a % b == 0 ==> r == q,
                    b > 0,
            ;
        }
        r
    }
}

} // verus!
