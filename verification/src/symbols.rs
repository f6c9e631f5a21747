//! Reading the assembler's symbol file: which symbols are code and which are data, where the
//! data symbols lie and how long they are, in the payload or in the base rom.

use vstd::prelude::*;

verus! {

/// The index of the first `'\n'` in `t` at or after `i`, or the length of `t`.
pub open spec fn newline_from(t: Seq<char>, i: int) -> int
    decreases t.len() - i,
{
    if i >= t.len() {
        t.len() as int
    } else if t[i] == '\n' {
        i
    } else {
        newline_from(t, i + 1)
    }
}

/// A line without its `'\n'`, and without a `'\r'` just before the `'\n'`.
pub open spec fn strip_ending(line: Seq<char>, ended: bool) -> Seq<char> {
    if ended && line.len() > 0 && line.last() == '\r' {
        line.drop_last()
    } else {
        line
    }
}

/// The lines of `t` from `i` on: split at each `'\n'`, a `'\r'` before it dropped too, and
/// no empty line after a final `'\n'`.
pub open spec fn lines_from(t: Seq<char>, i: int) -> Seq<Seq<char>>
    decreases t.len() - i,
{
    if i < 0 || i >= t.len() {
        Seq::empty()
    } else {
        proof {
            lemma_newline_from(t, i);
        }
        let e = newline_from(t, i);
        if e < t.len() {
            seq![strip_ending(t.subrange(i, e), true)] + lines_from(t, e + 1)
        } else {
            seq![t.subrange(i, e)]
        }
    }
}

/// The lines of `t`.
pub open spec fn lines_of(t: Seq<char>) -> Seq<Seq<char>> {
    lines_from(t, 0)
}

pub proof fn lemma_newline_from(t: Seq<char>, i: int)
    requires
        0 <= i <= t.len(),
    ensures
        i <= newline_from(t, i) <= t.len(),
        newline_from(t, i) < t.len() ==> t[newline_from(t, i)] == '\n',
        forall|k: int| i <= k < newline_from(t, i) ==> t[k] != '\n',
    decreases t.len() - i,
{
    if i < t.len() && t[i] != '\n' {
        lemma_newline_from(t, i + 1);
    }
}

proof fn lemma_newline_skip(t: Seq<char>, a: int, b: int)
    requires
        0 <= a <= b <= t.len(),
        forall|k: int| a <= k < b ==> t[k] != '\n',
    ensures
        newline_from(t, a) == newline_from(t, b),
    decreases b - a,
{
    if a < b {
        lemma_newline_skip(t, a + 1, b);
    }
}

/// The views of lines.
pub open spec fn line_views(v: Seq<Vec<char>>) -> Seq<Seq<char>> {
    v.map_values(|l: Vec<char>| l@)
}

/// Copies `t[lo..hi]`.
fn copy_range(t: &[char], lo: usize, hi: usize) -> (r: Vec<char>)
    requires
        lo <= hi <= t@.len(),
    ensures
        r@ == t@.subrange(lo as int, hi as int),
{
    let mut v: Vec<char> = Vec::new();
    let mut k = lo;
    while k < hi
        invariant
            lo <= k <= hi <= t@.len(),
            v@ == t@.subrange(lo as int, k as int),
        decreases hi - k,
    {
        v.push(t[k]);
        k = k + 1;
        proof {
            assert(v@ =~= t@.subrange(lo as int, k as int));
        }
    }
    v
}

/// Splits a text into lines.
pub fn split_lines(t: &[char]) -> (r: Vec<Vec<char>>)
    ensures
        line_views(r@) == lines_of(t@),
{
    let n = t.len();
    let mut out: Vec<Vec<char>> = Vec::new();
    let mut i: usize = 0;
    proof {
        assert(line_views(out@) + lines_from(t@, 0) =~= lines_of(t@));
    }
    while i < n
        invariant
            i <= n == t@.len(),
            line_views(out@) + lines_from(t@, i as int) == lines_of(t@),
        decreases n - i,
    {
        let mut e = i;
        while e < n && t[e] != '\n'
            invariant
                i <= e <= n == t@.len(),
                forall|k: int| i <= k < e ==> t@[k] != '\n',
            decreases n - e,
        {
            e = e + 1;
        }
        proof {
            lemma_newline_skip(t@, i as int, e as int);
        }
        let ghost before = line_views(out@);
        if e < n {
            let mut end = e;
            if e > i && t[e - 1] == '\r' {
                end = e - 1;
            }
            let line = copy_range(t, i, end);
            out.push(line);
            proof {
                let full = t@.subrange(i as int, e as int);
                assert(strip_ending(full, true) =~= line@);
                assert(line_views(out@) =~= before.push(line@));
                assert(lines_from(t@, i as int) == seq![line@] + lines_from(t@, e + 1));
                assert(line_views(out@) + lines_from(t@, e + 1) =~= before + lines_from(t@, i as int));
            }
            i = e + 1;
        } else {
            let line = copy_range(t, i, e);
            out.push(line);
            proof {
                assert(line_views(out@) =~= before.push(line@));
                assert(lines_from(t@, i as int) == seq![line@]);
                assert(line_views(out@) + lines_from(t@, n as int) =~= before + lines_from(t@, i as int));
            }
            i = n;
        }
    }
    proof {
        assert(line_views(out@) =~= line_views(out@) + lines_from(t@, n as int));
    }
    out
}

/// The index of the first occurrence of `c` in `s`, if any.
pub open spec fn first_index(s: Seq<char>, c: char, i: int) -> int
    decreases s.len() - i,
{
    if i >= s.len() {
        s.len() as int
    } else if s[i] == c {
        i
    } else {
        first_index(s, c, i + 1)
    }
}

/// `s` split at its first `c`, if it has one.
pub open spec fn split_once(s: Seq<char>, c: char) -> Option<(Seq<char>, Seq<char>)> {
    let i = first_index(s, c, 0);
    if i < s.len() {
        Some((s.subrange(0, i), s.subrange(i + 1, s.len() as int)))
    } else {
        None
    }
}

proof fn lemma_first_index(s: Seq<char>, c: char, i: int)
    requires
        0 <= i <= s.len(),
    ensures
        i <= first_index(s, c, i) <= s.len(),
        first_index(s, c, i) < s.len() ==> s[first_index(s, c, i)] == c,
        forall|k: int| i <= k < first_index(s, c, i) ==> s[k] != c,
    decreases s.len() - i,
{
    if i < s.len() && s[i] != c {
        lemma_first_index(s, c, i + 1);
    }
}

proof fn lemma_first_index_skip(s: Seq<char>, c: char, a: int, b: int)
    requires
        0 <= a <= b <= s.len(),
        forall|k: int| a <= k < b ==> s[k] != c,
    ensures
        first_index(s, c, a) == first_index(s, c, b),
    decreases b - a,
{
    if a < b {
        lemma_first_index_skip(s, c, a + 1, b);
    }
}

/// Splits `s` at its first `c`.
pub fn split_once_at(s: &[char], c: char) -> (r: Option<(Vec<char>, Vec<char>)>)
    ensures
        r matches Some((a, b)) ==> split_once(s@, c) == Some((a@, b@)),
        r is None <==> split_once(s@, c) is None,
{
    let n = s.len();
    let mut i: usize = 0;
    while i < n && s[i] != c
        invariant
            i <= n == s@.len(),
            forall|k: int| 0 <= k < i ==> s@[k] != c,
        decreases n - i,
    {
        i = i + 1;
    }
    proof {
        lemma_first_index_skip(s@, c, 0, i as int);
    }
    if i < n {
        Some((copy_range(s, 0, i), copy_range(s, i + 1, n)))
    } else {
        None
    }
}

/// The value of a hexadecimal digit, if `c` is one.
pub open spec fn hex_value(c: char) -> Option<nat> {
    if '0' <= c <= '9' {
        Some((c as nat - '0' as nat) as nat)
    } else if 'a' <= c <= 'f' {
        Some((c as nat - 'a' as nat + 10) as nat)
    } else if 'A' <= c <= 'F' {
        Some((c as nat - 'A' as nat + 10) as nat)
    } else {
        None
    }
}

/// The value of the hexadecimal digits `s`, if they all are digits.
pub open spec fn hex_digits_value(s: Seq<char>) -> Option<nat>
    decreases s.len(),
{
    if s.len() == 0 {
        Some(0)
    } else {
        match (hex_digits_value(s.drop_last()), hex_value(s.last())) {
            (Some(v), Some(d)) => Some(v * 16 + d),
            _ => None,
        }
    }
}

/// A machine-sized number written in hexadecimal, as `usize::from_str_radix` with radix 16 reads
/// it: at least one digit, after an optional `+`, and a value that fits.
pub open spec fn parse_hex(s: Seq<char>) -> Option<nat> {
    let digits = if s.len() > 1 && s[0] == '+' {
        s.subrange(1, s.len() as int)
    } else {
        s
    };
    if digits.len() == 0 {
        None
    } else {
        match hex_digits_value(digits) {
            Some(v) => if v <= usize::MAX {
                Some(v)
            } else {
                None
            },
            None => None,
        }
    }
}

fn hex_digit_value(c: char) -> (r: Option<usize>)
    ensures
        r matches Some(d) ==> hex_value(c) == Some(d as nat) && d < 16,
        r is None <==> hex_value(c) is None,
{
    if '0' <= c && c <= '9' {
        Some((c as u32 - '0' as u32) as usize)
    } else if 'a' <= c && c <= 'f' {
        Some((c as u32 - 'a' as u32 + 10) as usize)
    } else if 'A' <= c && c <= 'F' {
        Some((c as u32 - 'A' as u32 + 10) as usize)
    } else {
        None
    }
}

proof fn lemma_hex_digits_prefix(s: Seq<char>, k: int)
    requires
        0 <= k < s.len(),
        hex_digits_value(s.subrange(0, k)) is Some,
        hex_value(s[k]) is Some,
    ensures
        hex_digits_value(s.subrange(0, k + 1)) == Some(
            hex_digits_value(s.subrange(0, k))->0 * 16 + hex_value(s[k])->0,
        ),
{
    assert(s.subrange(0, k + 1).drop_last() =~= s.subrange(0, k));
}

proof fn lemma_hex_digits_monotone(s: Seq<char>, k: int)
    requires
        0 <= k <= s.len(),
        hex_digits_value(s) is Some,
    ensures
        hex_digits_value(s.subrange(0, k)) is Some,
        hex_digits_value(s.subrange(0, k))->0 <= hex_digits_value(s)->0,
    decreases s.len() - k,
{
    if k < s.len() {
        assert(s.subrange(0, s.len() as int) =~= s);
        let t = s.drop_last();
        assert(hex_digits_value(t) is Some);
        lemma_hex_digits_monotone(t, k);
        assert(t.subrange(0, k) =~= s.subrange(0, k));
    } else {
        assert(s.subrange(0, k) =~= s);
    }
}

proof fn lemma_hex_digits_fail(s: Seq<char>, k: int)
    requires
        0 <= k <= s.len(),
        hex_digits_value(s.subrange(0, k)) is None,
    ensures
        hex_digits_value(s) is None,
    decreases s.len() - k,
{
    if k < s.len() {
        assert(s.subrange(0, k + 1).drop_last() =~= s.subrange(0, k));
        lemma_hex_digits_fail(s, k + 1);
    } else {
        assert(s.subrange(0, k) =~= s);
    }
}

/// Reads a machine-sized number written in hexadecimal.
pub fn parse_hex_number(s: &[char]) -> (r: Option<usize>)
    ensures
        r matches Some(v) ==> parse_hex(s@) == Some(v as nat),
        r is None <==> parse_hex(s@) is None,
{
    let n = s.len();
    let start: usize = if n > 1 && s[0] == '+' {
        1
    } else {
        0
    };
    let ghost digits = s@.subrange(start as int, n as int);
    proof {
        if start == 0 {
            assert(digits =~= s@);
        }
    }
    if start == n {
        return None;
    }
    let mut value: usize = 0;
    let mut k: usize = start;
    proof {
        assert(digits.subrange(0, 0) =~= Seq::<char>::empty());
    }
    while k < n
        invariant
            start <= k <= n == s@.len(),
            digits == s@.subrange(start as int, n as int),
            digits == (if s@.len() > 1 && s@[0] == '+' {
                s@.subrange(1, s@.len() as int)
            } else {
                s@
            }),
            hex_digits_value(digits.subrange(0, k - start)) == Some(value as nat),
        decreases n - k,
    {
        let d = match hex_digit_value(s[k]) {
            Some(d) => d,
            None => {
                proof {
                    let p = digits.subrange(0, k - start + 1);
                    assert(digits[k - start] == s@[k as int]);
                    assert(p.drop_last() =~= digits.subrange(0, k - start));
                    assert(p.last() == s@[k as int]);
                    assert(hex_digits_value(p) is None);
                    lemma_hex_digits_fail(digits, k - start + 1);
                    assert(hex_digits_value(digits) is None);
                }
                return None;
            },
        };
        proof {
            assert(digits[k - start] == s@[k as int]);
            lemma_hex_digits_prefix(digits, k - start);
        }
        if value > (usize::MAX - d) / 16 {
            proof {
                let v2 = value as nat * 16 + d as nat;
                assert(v2 > usize::MAX) by (nonlinear_arith)
                    requires
                        value > (usize::MAX - d) / 16,
                        d < 16,
                        v2 == value as nat * 16 + d as nat,
                ;
                if hex_digits_value(digits) is Some {
                    lemma_hex_digits_monotone(digits, k - start + 1);
                    assert(hex_digits_value(digits.subrange(0, k - start + 1))->0 == v2);
                    assert(hex_digits_value(digits)->0 > usize::MAX);
                }
            }
            return None;
        }
        proof {
            assert(value * 16 + d <= usize::MAX) by (nonlinear_arith)
                requires
                    value <= (usize::MAX - d) / 16,
                    d < 16,
            ;
        }
        value = value * 16 + d;
        k = k + 1;
    }
    proof {
        assert(digits.subrange(0, n - start) =~= digits);
    }
    Some(value)
}

/// Whether two texts are equal.
pub fn chars_equal(a: &[char], b: &[char]) -> (r: bool)
    ensures
        r == (a@ == b@),
{
    if a.len() != b.len() {
        return false;
    }
    let mut k: usize = 0;
    while k < a.len()
        invariant
            a@.len() == b@.len(),
            k <= a@.len(),
            forall|m: int| 0 <= m < k ==> a@[m] == b@[m],
        decreases a@.len() - k,
    {
        if a[k] != b[k] {
            return false;
        }
        k = k + 1;
    }
    proof {
        assert(a@ =~= b@);
    }
    true
}

/// The kind the compiler's symbol table gives `name`, if it lists it: `true` for code. When it
/// lists a name several times, the last listing counts.
pub open spec fn c_kind(c_types: Seq<(Seq<char>, bool)>, name: Seq<char>) -> Option<bool>
    decreases c_types.len(),
{
    if c_types.len() == 0 {
        None
    } else if c_types.last().0 == name {
        Some(c_types.last().1)
    } else {
        c_kind(c_types.drop_last(), name)
    }
}

/// Whether `s` holds a lowercase ASCII letter.
pub open spec fn has_lowercase(s: Seq<char>) -> bool {
    exists|i: int| 0 <= i < s.len() && 'a' <= #[trigger] s[i] <= 'z'
}

/// Whether the symbol `name` is code: as the compiler's symbol table says, or else whether its
/// name has a lowercase letter (assembler labels of data are in capitals).
pub open spec fn is_code(c_types: Seq<(Seq<char>, bool)>, name: Seq<char>) -> bool {
    match c_kind(c_types, name) {
        Some(b) => b,
        None => has_lowercase(name),
    }
}

/// The address and the name a line of the assembler's symbol file declares, if it declares a
/// symbol: the address starts with `8` and the name starts with neither `.` nor `@`.
pub open spec fn declared(line: Seq<char>) -> Option<(Seq<char>, Seq<char>)> {
    match split_once(line, ' ') {
        Some((a, n)) => if a.len() > 0 && a[0] == '8' && !(n.len() > 0 && (n[0] == '.' || n[0] == '@')) {
            Some((a, n))
        } else {
            None
        },
        None => None,
    }
}

/// The address and the hexadecimal length a line of the symbol file gives, if it gives one:
/// its name starts with `.`, and the length follows its first `:`.
pub open spec fn length_line(line: Seq<char>) -> Option<(Seq<char>, Seq<char>)> {
    match split_once(line, ' ') {
        Some((a, n)) => if n.len() > 0 && n[0] == '.' {
            match split_once(n, ':') {
                Some((_, h)) => Some((a, h)),
                None => None,
            }
        } else {
            None
        },
        None => None,
    }
}

/// A declared symbol: its name, whether it is code, and its address as written.
pub type SymbolSpec = (Seq<char>, bool, Seq<char>);

/// Where the symbol `name` stands among `syms` from `i` on, or their number.
pub open spec fn name_index(syms: Seq<SymbolSpec>, name: Seq<char>, i: int) -> int
    decreases syms.len() - i,
{
    if i >= syms.len() {
        syms.len() as int
    } else if syms[i].0 == name {
        i
    } else {
        name_index(syms, name, i + 1)
    }
}

/// The symbols after declaring `name` at `addr`: a symbol already declared under that name
/// keeps its place and takes the new kind and address.
pub open spec fn declare(syms: Seq<SymbolSpec>, name: Seq<char>, code: bool, addr: Seq<char>) -> Seq<SymbolSpec> {
    let i = name_index(syms, name, 0);
    if i < syms.len() {
        syms.update(i, (name, code, addr))
    } else {
        syms.push((name, code, addr))
    }
}

/// The symbols the first `n` lines declare, in the order their names first appear.
pub open spec fn declared_symbols(lines: Seq<Seq<char>>, c_types: Seq<(Seq<char>, bool)>, n: int) -> Seq<SymbolSpec>
    decreases n,
{
    if n <= 0 {
        Seq::empty()
    } else {
        let prev = declared_symbols(lines, c_types, n - 1);
        match declared(lines[n - 1]) {
            Some((a, name)) => declare(prev, name, is_code(c_types, name), a),
            None => prev,
        }
    }
}

/// The length the first `n` lines give the data symbol at `addr`: that of the last line giving
/// a length at that address, or 0; `None` if one of those lengths is not a number.
pub open spec fn data_length(lines: Seq<Seq<char>>, addr: Seq<char>, n: int) -> Option<nat>
    decreases n,
{
    if n <= 0 {
        Some(0)
    } else {
        match data_length(lines, addr, n - 1) {
            None => None,
            Some(v) => match length_line(lines[n - 1]) {
                Some((a, h)) => if a == addr {
                    parse_hex(h)
                } else {
                    Some(v)
                },
                None => Some(v),
            },
        }
    }
}

proof fn lemma_name_index(syms: Seq<SymbolSpec>, name: Seq<char>, i: int)
    requires
        0 <= i <= syms.len(),
    ensures
        i <= name_index(syms, name, i) <= syms.len(),
        name_index(syms, name, i) < syms.len() ==> syms[name_index(syms, name, i)].0 == name,
        forall|k: int| i <= k < name_index(syms, name, i) ==> syms[k].0 != name,
    decreases syms.len() - i,
{
    if i < syms.len() && syms[i].0 != name {
        lemma_name_index(syms, name, i + 1);
    }
}

proof fn lemma_name_index_skip(syms: Seq<SymbolSpec>, name: Seq<char>, a: int, b: int)
    requires
        0 <= a <= b <= syms.len(),
        forall|k: int| a <= k < b ==> syms[k].0 != name,
    ensures
        name_index(syms, name, a) == name_index(syms, name, b),
    decreases b - a,
{
    if a < b {
        lemma_name_index_skip(syms, name, a + 1, b);
    }
}

proof fn lemma_c_kind(c_types: Seq<(Seq<char>, bool)>, name: Seq<char>)
    ensures
        forall|i: int|
            0 <= i < c_types.len() && (#[trigger] c_types[i]).0 == name && (forall|j: int|
                i < j < c_types.len() ==> c_types[j].0 != name) ==> c_kind(c_types, name) == Some(c_types[i].1),
        (forall|i: int| 0 <= i < c_types.len() ==> (#[trigger] c_types[i]).0 != name) ==> c_kind(c_types, name)
            is None,
    decreases c_types.len(),
{
    if c_types.len() > 0 {
        let rest = c_types.drop_last();
        lemma_c_kind(rest, name);
        let n = c_types.len() - 1;
        assert forall|i: int|
            0 <= i < c_types.len() && (#[trigger] c_types[i]).0 == name && (forall|j: int|
                i < j < c_types.len() ==> c_types[j].0 != name) implies c_kind(c_types, name) == Some(c_types[i].1) by {
            if i < n {
                assert(c_types[n].0 != name);
                assert(rest[i] == c_types[i]);
                assert forall|j: int| i < j < rest.len() implies rest[j].0 != name by {
                    assert(rest[j] == c_types[j]);
                }
            }
        }
        if forall|i: int| 0 <= i < c_types.len() ==> (#[trigger] c_types[i]).0 != name {
            assert(c_types[n].0 != name);
            assert forall|i: int| 0 <= i < rest.len() implies (#[trigger] rest[i]).0 != name by {
                assert(rest[i] == c_types[i]);
            }
        }
    }
}

proof fn lemma_declared_kinds(lines: Seq<Seq<char>>, c_types: Seq<(Seq<char>, bool)>, n: int)
    ensures
        forall|k: int|
            0 <= k < declared_symbols(lines, c_types, n).len() ==> (#[trigger] declared_symbols(lines, c_types, n)[k]).1
                == is_code(c_types, declared_symbols(lines, c_types, n)[k].0),
    decreases n,
{
    if n > 0 {
        lemma_declared_kinds(lines, c_types, n - 1);
        let prev = declared_symbols(lines, c_types, n - 1);
        if let Some((a, name)) = declared(lines[n - 1]) {
            lemma_name_index(prev, name, 0);
        }
    }
}

/// The kind of each declared symbol: as the compiler's symbol table gives it in its last
/// listing of the name, whatever the case of the name; only for a name the table does not list,
/// code exactly if the name has a lowercase letter.
pub proof fn law_symbol_kinds(lines: Seq<Seq<char>>, c_types: Seq<(Seq<char>, bool)>, n: int, k: int)
    requires
        0 <= k < declared_symbols(lines, c_types, n).len(),
    ensures
        ({
            let (name, code, _) = declared_symbols(lines, c_types, n)[k];
            &&& forall|i: int|
                0 <= i < c_types.len() && (#[trigger] c_types[i]).0 == name && (forall|j: int|
                    i < j < c_types.len() ==> c_types[j].0 != name) ==> code == c_types[i].1
            &&& (forall|i: int| 0 <= i < c_types.len() ==> (#[trigger] c_types[i]).0 != name) ==> (code <==> exists|p: int|
                0 <= p < name.len() && 'a' <= #[trigger] name[p] <= 'z')
        }),
{
    lemma_declared_kinds(lines, c_types, n);
    let name = declared_symbols(lines, c_types, n)[k].0;
    lemma_c_kind(c_types, name);
}

/// A symbol of the assembled code.
pub struct Symbol {
    pub name: Vec<char>,
    pub is_code: bool,
    pub address: Vec<char>,
}

/// The views of symbols.
pub open spec fn symbol_views(v: Seq<Symbol>) -> Seq<SymbolSpec> {
    v.map_values(|s: Symbol| (s.name@, s.is_code, s.address@))
}

/// The views of names with their kinds.
pub open spec fn kind_views(v: Seq<(Vec<char>, bool)>) -> Seq<(Seq<char>, bool)> {
    v.map_values(|e: (Vec<char>, bool)| (e.0@, e.1))
}

/// The kind the compiler's symbol table gives `name`, if it lists it.
fn lookup_c_kind(c_types: &Vec<(Vec<char>, bool)>, name: &[char]) -> (r: Option<bool>)
    ensures
        r == c_kind(kind_views(c_types@), name@),
{
    let ghost view = kind_views(c_types@);
    let mut k = c_types.len();
    proof {
        assert(view.subrange(0, k as int) =~= view);
    }
    while k > 0
        invariant
            k <= c_types@.len(),
            view == kind_views(c_types@),
            c_kind(view.subrange(0, k as int), name@) == c_kind(view, name@),
        decreases k,
    {
        let ghost sub = view.subrange(0, k as int);
        if chars_equal(c_types[k - 1].0.as_slice(), name) {
            proof {
                assert(sub.last() == view[k - 1]);
            }
            return Some(c_types[k - 1].1);
        }
        proof {
            assert(sub.drop_last() =~= view.subrange(0, k - 1));
        }
        k = k - 1;
    }
    proof {
        assert(view.subrange(0, 0) =~= Seq::<(Seq<char>, bool)>::empty());
    }
    None
}

/// Whether `s` holds a lowercase ASCII letter.
fn any_lowercase(s: &[char]) -> (r: bool)
    ensures
        r == has_lowercase(s@),
{
    let mut k: usize = 0;
    while k < s.len()
        invariant
            k <= s@.len(),
            forall|m: int| 0 <= m < k ==> !('a' <= #[trigger] s@[m] <= 'z'),
        decreases s@.len() - k,
    {
        if 'a' <= s[k] && s[k] <= 'z' {
            return true;
        }
        k = k + 1;
    }
    false
}

/// Declares a symbol, keeping the place of one already declared under its name.
fn declare_symbol(syms: &mut Vec<Symbol>, name: Vec<char>, code: bool, address: Vec<char>)
    ensures
        symbol_views(final(syms)@) == declare(symbol_views(old(syms)@), name@, code, address@),
{
    let ghost old_view = symbol_views(syms@);
    let mut k: usize = 0;
    while k < syms.len()
        invariant
            k <= syms@.len(),
            syms@ == old(syms)@,
            old_view == symbol_views(syms@),
            forall|m: int| 0 <= m < k ==> old_view[m].0 != name@,
        decreases syms@.len() - k,
    {
        if chars_equal(syms[k].name.as_slice(), name.as_slice()) {
            proof {
                lemma_name_index_skip(old_view, name@, 0, k as int);
            }
            let ghost nv = name@;
            let ghost av = address@;
            syms.set(k, Symbol { name, is_code: code, address });
            proof {
                assert(symbol_views(syms@) =~= old_view.update(k as int, (nv, code, av)));
            }
            return;
        }
        k = k + 1;
    }
    proof {
        lemma_name_index_skip(old_view, name@, 0, k as int);
    }
    let ghost nv = name@;
    let ghost av = address@;
    syms.push(Symbol { name, is_code: code, address });
    proof {
        assert(symbol_views(syms@) =~= old_view.push((nv, code, av)));
    }
}

/// The symbols that the lines of the assembler's symbol file declare, in the order their names
/// first appear, each with its kind and its address as written.
pub fn declare_symbols(lines: &Vec<Vec<char>>, c_types: &Vec<(Vec<char>, bool)>) -> (r: Vec<Symbol>)
    ensures
        symbol_views(r@) == declared_symbols(
            line_views(lines@),
            kind_views(c_types@),
            lines@.len() as int,
        ),
{
    let ghost lv = line_views(lines@);
    let ghost cv = kind_views(c_types@);
    let mut syms: Vec<Symbol> = Vec::new();
    let mut i: usize = 0;
    while i < lines.len()
        invariant
            i <= lines@.len(),
            lv == line_views(lines@),
            cv == kind_views(c_types@),
            symbol_views(syms@) == declared_symbols(lv, cv, i as int),
        decreases lines@.len() - i,
    {
        let ghost before = symbol_views(syms@);
        assert(lv[i as int] == lines@[i as int]@);
        if let Some((address, name)) = split_once_at(lines[i].as_slice(), ' ') {
            let keep = address.len() > 0 && address[0] == '8' && !(name.len() > 0 && (name[0] == '.' || name[0]
                == '@'));
            if keep {
                let code = match lookup_c_kind(c_types, name.as_slice()) {
                    Some(b) => b,
                    None => any_lowercase(name.as_slice()),
                };
                declare_symbol(&mut syms, name, code, address);
            }
        }
        i = i + 1;
    }
    syms
}

/// The length the lines give the data symbol at `addr`: that of the last line giving a length at
/// that address, or 0; `None` if one of those lengths is not a number.
pub fn symbol_length(lines: &Vec<Vec<char>>, addr: &[char]) -> (r: Option<usize>)
    ensures
        r matches Some(v) ==> data_length(line_views(lines@), addr@, lines@.len() as int) == Some(v as nat),
        r is None <==> data_length(line_views(lines@), addr@, lines@.len() as int) is None,
{
    let ghost lv = line_views(lines@);
    let mut length: usize = 0;
    let mut i: usize = 0;
    while i < lines.len()
        invariant
            i <= lines@.len(),
            lv == line_views(lines@),
            data_length(lv, addr@, i as int) == Some(length as nat),
        decreases lines@.len() - i,
    {
        assert(lv[i as int] == lines@[i as int]@);
        if let Some((a, name)) = split_once_at(lines[i].as_slice(), ' ') {
            if name.len() > 0 && name[0] == '.' {
                if let Some((_, hex_length)) = split_once_at(name.as_slice(), ':') {
                    if chars_equal(a.as_slice(), addr) {
                        match parse_hex_number(hex_length.as_slice()) {
                            Some(v) => {
                                length = v;
                            },
                            None => {
                                proof {
                                    lemma_data_length_stuck(lv, addr@, i as int + 1, lines@.len() as int);
                                }
                                return None;
                            },
                        }
                    }
                }
            }
        }
        i = i + 1;
    }
    Some(length)
}

/// Once a length fails to read, the data length stays unreadable.
proof fn lemma_data_length_stuck(lines: Seq<Seq<char>>, addr: Seq<char>, a: int, b: int)
    requires
        0 <= a <= b,
        data_length(lines, addr, a) is None,
    ensures
        data_length(lines, addr, b) is None,
    decreases b - a,
{
    if a < b {
        lemma_data_length_stuck(lines, addr, a, b - 1);
    }
}

/// Why the symbol tables could not be made.
#[derive(Debug, Clone, Copy, PartialEq, Eq, Structural)]
pub enum SymbolError {
    /// An address or a length is not a hexadecimal number that fits.
    BadNumber,
    /// `PAYLOAD_START` or `PAYLOAD_END` is not declared.
    MissingSymbol,
    /// A data symbol of the payload lies below the address the payload is loaded at.
    BelowPayloadBase,
}

/// The name of the symbol at the start of the payload.
pub open spec fn payload_start_name() -> Seq<char> {
    seq!['P', 'A', 'Y', 'L', 'O', 'A', 'D', '_', 'S', 'T', 'A', 'R', 'T']
}

/// The name of the symbol at the end of the payload.
pub open spec fn payload_end_name() -> Seq<char> {
    seq!['P', 'A', 'Y', 'L', 'O', 'A', 'D', '_', 'E', 'N', 'D']
}

/// The address at which the payload is loaded.
pub const PAYLOAD_BASE: usize = 0x8040_0000;

/// Where the payload lies in the rom file.
pub const PAYLOAD_ROM_OFFSET: usize = 0x0348_0000;

/// The uppercase hexadecimal digit of `d`.
pub open spec fn hex_upper_digit(d: nat) -> char {
    if d < 10 {
        (('0' as nat) + d) as char
    } else {
        (('A' as nat) + d - 10) as char
    }
}

/// The uppercase hexadecimal digits of `n`, without leading zeros.
pub open spec fn hex_upper(n: nat) -> Seq<char>
    decreases n,
{
    if n < 16 {
        seq![hex_upper_digit(n)]
    } else {
        hex_upper(n / 16).push(hex_upper_digit(n % 16))
    }
}

/// Digits padded with zeros in front to at least eight.
pub open spec fn padded8(s: Seq<char>) -> Seq<char> {
    if s.len() < 8 {
        Seq::new((8 - s.len()) as nat, |i: int| '0') + s
    } else {
        s
    }
}

/// A data symbol as written out: its name, its place in the rom file in uppercase hexadecimal
/// with at least eight digits, and its length.
pub type DataSymbolSpec = (Seq<char>, Seq<char>, nat);

/// The data symbols from the `i`-th on: those of the payload `[start, end)` with their place in
/// the rom file, and the others with their address. `Err` for the first of them whose address is
/// not a number, or that lies in the payload below its load address.
pub open spec fn sort_symbols(
    lines: Seq<Seq<char>>,
    syms: Seq<SymbolSpec>,
    start: nat,
    end: nat,
    i: int,
) -> Result<(Seq<DataSymbolSpec>, Seq<(Seq<char>, nat)>), SymbolError>
    decreases syms.len() - i,
{
    if i < 0 || i >= syms.len() {
        Ok((Seq::empty(), Seq::empty()))
    } else {
        let rest = sort_symbols(lines, syms, start, end, i + 1);
        let name = syms[i].0;
        let addr = syms[i].2;
        if syms[i].1 {
            rest
        } else {
            match parse_hex(addr) {
                None => Err(SymbolError::BadNumber),
                Some(a) => if start <= a < end {
                    if a < PAYLOAD_BASE {
                        Err(SymbolError::BelowPayloadBase)
                    } else {
                        match rest {
                            Ok((d, p)) => Ok((
                                seq![(
                                    name,
                                    padded8(hex_upper((a - PAYLOAD_BASE + PAYLOAD_ROM_OFFSET) as nat)),
                                    data_length(lines, addr, lines.len() as int)->0,
                                )] + d,
                                p,
                            )),
                            Err(e) => Err(e),
                        }
                    }
                } else {
                    match rest {
                        Ok((d, p)) => Ok((d, seq![(name, a)] + p)),
                        Err(e) => Err(e),
                    }
                },
            }
        }
    }
}

/// The symbol tables that the assembler's symbol file `text` gives, with the kinds the
/// compiler's symbol table lists: the data symbols of the payload with their place in the rom
/// file and their length, and the other data symbols with their address.
pub open spec fn spec_symbol_tables(text: Seq<char>, c_types: Seq<(Seq<char>, bool)>) -> Result<
    (Seq<DataSymbolSpec>, Seq<(Seq<char>, nat)>),
    SymbolError,
> {
    let lines = lines_of(text);
    let syms = declared_symbols(lines, c_types, lines.len() as int);
    if exists|i: int| 0 <= i < syms.len() && !syms[i].1 && (#[trigger] data_length(lines, syms[i].2, lines.len() as int)) is None {
        Err(SymbolError::BadNumber)
    } else {
        let si = name_index(syms, payload_start_name(), 0);
        if si >= syms.len() {
            Err(SymbolError::MissingSymbol)
        } else {
            match parse_hex(syms[si].2) {
                None => Err(SymbolError::BadNumber),
                Some(start) => {
                    let ei = name_index(syms, payload_end_name(), 0);
                    if ei >= syms.len() {
                        Err(SymbolError::MissingSymbol)
                    } else {
                        match parse_hex(syms[ei].2) {
                            None => Err(SymbolError::BadNumber),
                            Some(end) => sort_symbols(lines, syms, start, end, 0),
                        }
                    }
                },
            }
        }
    }
}

fn hex_upper_digit_str(d: usize) -> (s: &'static str)
    requires
        d < 16,
    ensures
        s@ == seq![hex_upper_digit(d as nat)],
{
    proof {
        reveal_strlit("0");
        reveal_strlit("1");
        reveal_strlit("2");
        reveal_strlit("3");
        reveal_strlit("4");
        reveal_strlit("5");
        reveal_strlit("6");
        reveal_strlit("7");
        reveal_strlit("8");
        reveal_strlit("9");
        reveal_strlit("A");
        reveal_strlit("B");
        reveal_strlit("C");
        reveal_strlit("D");
        reveal_strlit("E");
        reveal_strlit("F");
    }
    if d == 0 {
        "0"
    } else if d == 1 {
        "1"
    } else if d == 2 {
        "2"
    } else if d == 3 {
        "3"
    } else if d == 4 {
        "4"
    } else if d == 5 {
        "5"
    } else if d == 6 {
        "6"
    } else if d == 7 {
        "7"
    } else if d == 8 {
        "8"
    } else if d == 9 {
        "9"
    } else if d == 10 {
        "A"
    } else if d == 11 {
        "B"
    } else if d == 12 {
        "C"
    } else if d == 13 {
        "D"
    } else if d == 14 {
        "E"
    } else {
        "F"
    }
}

/// The uppercase hexadecimal digits of `n`, and how many there are.
fn hex_upper_digits(n: usize) -> (r: (String, usize))
    ensures
        r.0@ == hex_upper(n as nat),
        r.1 == r.0@.len(),
        r.1 <= n + 1,
    decreases n,
{
    if n < 16 {
        (String::from_str(hex_upper_digit_str(n)), 1)
    } else {
        let (mut s, k) = hex_upper_digits(n / 16);
        s.append(hex_upper_digit_str(n % 16));
        proof {
            assert(s@ =~= hex_upper(n as nat));
        }
        (s, k + 1)
    }
}

/// `n` in uppercase hexadecimal, padded with zeros to at least eight digits.
pub fn hex8(n: usize) -> (s: String)
    ensures
        s@ == padded8(hex_upper(n as nat)),
{
    let (digits, k) = hex_upper_digits(n);
    if k < 8 {
        let mut s = String::new();
        let mut z: usize = 0;
        while z < 8 - k
            invariant
                z <= 8 - k,
                s@ == Seq::new(z as nat, |i: int| '0'),
            decreases 8 - k - z,
        {
            s.append("0");
            z = z + 1;
            proof {
                reveal_strlit("0");
                assert(s@ =~= Seq::new(z as nat, |i: int| '0'));
            }
        }
        s.append(digits.as_str());
        s
    } else {
        digits
    }
}

/// A data symbol of the payload as written out: its name, its place in the rom file in
/// uppercase hexadecimal with at least eight digits, and its length.
pub struct DataSymbol {
    pub name: Vec<char>,
    pub address: String,
    pub length: usize,
}

/// The views of data symbols.
pub open spec fn data_symbol_views(v: Seq<DataSymbol>) -> Seq<DataSymbolSpec> {
    v.map_values(|d: DataSymbol| (d.name@, d.address@, d.length as nat))
}

/// The views of named addresses.
pub open spec fn address_views(v: Seq<(Vec<char>, usize)>) -> Seq<(Seq<char>, nat)> {
    v.map_values(|e: (Vec<char>, usize)| (e.0@, e.1 as nat))
}

/// The symbol tables of the assembled code.
pub struct SymbolTables {
    /// The data symbols of the payload.
    pub data_symbols: Vec<DataSymbol>,
    /// The data symbols that patch the base rom in place, with their addresses.
    pub patch_symbols: Vec<(Vec<char>, usize)>,
}

/// Where the symbol `name` stands among `syms`, or their number.
fn find_symbol(syms: &Vec<Symbol>, name: &[char]) -> (r: usize)
    ensures
        r == name_index(symbol_views(syms@), name@, 0),
{
    let ghost sv = symbol_views(syms@);
    let mut k: usize = 0;
    while k < syms.len()
        invariant
            k <= syms@.len(),
            sv == symbol_views(syms@),
            forall|m: int| 0 <= m < k ==> sv[m].0 != name@,
        decreases syms@.len() - k,
    {
        if chars_equal(syms[k].name.as_slice(), name) {
            proof {
                lemma_name_index_skip(sv, name@, 0, k as int);
            }
            return k;
        }
        k = k + 1;
    }
    proof {
        lemma_name_index_skip(sv, name@, 0, k as int);
    }
    k
}

/// Reads the symbol tables from the assembler's symbol file `text`, with the kinds that the
/// compiler's symbol table `c_types` lists (`true` for code).
pub fn symbol_tables(text: &[char], c_types: &Vec<(Vec<char>, bool)>) -> (r: Result<SymbolTables, SymbolError>)
    ensures
        ({
            let spec_r = spec_symbol_tables(text@, kind_views(c_types@));
            &&& r is Err <==> spec_r is Err
            &&& r matches Err(e) ==> spec_r == Err::<(Seq<DataSymbolSpec>, Seq<(Seq<char>, nat)>), SymbolError>(e)
            &&& r matches Ok(t) ==> spec_r == Ok::<(Seq<DataSymbolSpec>, Seq<(Seq<char>, nat)>), SymbolError>(
                (data_symbol_views(t.data_symbols@), address_views(t.patch_symbols@)),
            )
        }),
{
    let ghost cv = kind_views(c_types@);
    let lines = split_lines(text);
    let ghost lv = line_views(lines@);
    let syms = declare_symbols(&lines, c_types);
    let ghost sv = symbol_views(syms@);
    let n = syms.len();
    let mut lengths: Vec<usize> = Vec::new();
    let mut i: usize = 0;
    while i < n
        invariant
            i <= n == syms@.len(),
            sv == symbol_views(syms@),
            lv == line_views(lines@),
            lv == lines_of(text@),
            lv.len() == lines@.len(),
            sv == declared_symbols(lv, kind_views(c_types@), lv.len() as int),
            lengths@.len() == i,
            forall|k: int| 0 <= k < i ==> !sv[k].1 ==> data_length(lv, sv[k].2, lv.len() as int) == Some(
                lengths@[k] as nat,
            ),
        decreases n - i,
    {
        if syms[i].is_code {
            lengths.push(0);
        } else {
            match symbol_length(&lines, syms[i].address.as_slice()) {
                Some(v) => lengths.push(v),
                None => {
                    proof {
                        assert(lv.len() == lines@.len());
                        assert(!sv[i as int].1 && data_length(lv, sv[i as int].2, lv.len() as int) is None);
                    }
                    return Err(SymbolError::BadNumber);
                },
            }
        }
        i = i + 1;
    }
    proof {
        assert(lv.len() == lines@.len());
    }
    let start_name: Vec<char> = vec!['P', 'A', 'Y', 'L', 'O', 'A', 'D', '_', 'S', 'T', 'A', 'R', 'T'];
    let end_name: Vec<char> = vec!['P', 'A', 'Y', 'L', 'O', 'A', 'D', '_', 'E', 'N', 'D'];
    proof {
        assert(start_name@ =~= payload_start_name());
        assert(end_name@ =~= payload_end_name());
    }
    let si = find_symbol(&syms, start_name.as_slice());
    if si >= n {
        return Err(SymbolError::MissingSymbol);
    }
    let start = match parse_hex_number(syms[si].address.as_slice()) {
        Some(v) => v,
        None => {
            return Err(SymbolError::BadNumber);
        },
    };
    let ei = find_symbol(&syms, end_name.as_slice());
    if ei >= n {
        return Err(SymbolError::MissingSymbol);
    }
    let end = match parse_hex_number(syms[ei].address.as_slice()) {
        Some(v) => v,
        None => {
            return Err(SymbolError::BadNumber);
        },
    };
    let mut data_symbols: Vec<DataSymbol> = Vec::new();
    let mut patch_symbols: Vec<(Vec<char>, usize)> = Vec::new();
    let mut k: usize = 0;
    proof {
        assert(spec_symbol_tables(text@, kind_views(c_types@)) == sort_symbols(lv, sv, start as nat, end as nat, 0));
        assert(data_symbol_views(data_symbols@) =~= Seq::<DataSymbolSpec>::empty());
        assert(address_views(patch_symbols@) =~= Seq::<(Seq<char>, nat)>::empty());
        match sort_symbols(lv, sv, start as nat, end as nat, 0) {
            Ok((d, p)) => {
                assert(Seq::<DataSymbolSpec>::empty() + d =~= d);
                assert(Seq::<(Seq<char>, nat)>::empty() + p =~= p);
            },
            Err(e) => {},
        }
    }
    while k < n
        invariant
            spec_symbol_tables(text@, kind_views(c_types@)) == sort_symbols(lv, sv, start as nat, end as nat, 0),
            k <= n == syms@.len(),
            sv == symbol_views(syms@),
            lv == line_views(lines@),
            lengths@.len() == n,
            forall|m: int| 0 <= m < n ==> !sv[m].1 ==> data_length(lv, sv[m].2, lv.len() as int) == Some(
                lengths@[m] as nat,
            ),
            sort_symbols(lv, sv, start as nat, end as nat, 0) == match sort_symbols(lv, sv, start as nat, end as nat, k as int) {
                Ok((d, p)) => Ok((data_symbol_views(data_symbols@) + d, address_views(patch_symbols@) + p)),
                Err(e) => Err(e),
            },
        decreases n - k,
    {
        let ghost rest = sort_symbols(lv, sv, start as nat, end as nat, k + 1);
        let ghost dv = data_symbol_views(data_symbols@);
        let ghost pv = address_views(patch_symbols@);
        if !syms[k].is_code {
            let addr = match parse_hex_number(syms[k].address.as_slice()) {
                Some(a) => a,
                None => {
                    return Err(SymbolError::BadNumber);
                },
            };
            if start <= addr && addr < end {
                if addr < PAYLOAD_BASE {
                    return Err(SymbolError::BelowPayloadBase);
                }
                let address = hex8(addr - PAYLOAD_BASE + PAYLOAD_ROM_OFFSET);
                let name = copy_range(syms[k].name.as_slice(), 0, syms[k].name.len());
                let ghost entry = (name@, address@, lengths@[k as int] as nat);
                data_symbols.push(DataSymbol { name, address, length: lengths[k] });
                proof {
                    assert(syms[k as int].name@.subrange(0, syms[k as int].name@.len() as int) =~= syms[k as int].name@);
                    assert(data_symbol_views(data_symbols@) =~= dv.push(entry));
                    match rest {
                        Ok((d, p)) => {
                            assert(dv.push(entry) + d =~= dv + (seq![entry] + d));
                        },
                        Err(e) => {},
                    }
                }
            } else {
                let name = copy_range(syms[k].name.as_slice(), 0, syms[k].name.len());
                proof {
                    assert(syms[k as int].name@.subrange(0, syms[k as int].name@.len() as int) =~= syms[k as int].name@);
                }
                let ghost entry = (name@, addr as nat);
                patch_symbols.push((name, addr));
                proof {
                    assert(address_views(patch_symbols@) =~= pv.push(entry));
                    match rest {
                        Ok((d, p)) => {
                            assert(pv.push(entry) + p =~= pv + (seq![entry] + p));
                        },
                        Err(e) => {},
                    }
                }
            }
        }
        k = k + 1;
    }
    proof {
        assert(data_symbol_views(data_symbols@) =~= data_symbol_views(data_symbols@) + Seq::<DataSymbolSpec>::empty());
        assert(address_views(patch_symbols@) =~= address_views(patch_symbols@) + Seq::<(Seq<char>, nat)>::empty());
    }
    Ok(SymbolTables { data_symbols, patch_symbols })
}

/// Whether `c` is white space in Unicode's sense.
pub open spec fn is_space(c: char) -> bool {
    ||| '\t' <= c <= '\r'
    ||| c == ' '
    ||| c == '\u{85}'
    ||| c == '\u{a0}'
    ||| c == '\u{1680}'
    ||| '\u{2000}' <= c <= '\u{200a}'
    ||| c == '\u{2028}'
    ||| c == '\u{2029}'
    ||| c == '\u{202f}'
    ||| c == '\u{205f}'
    ||| c == '\u{3000}'
}

fn space(c: char) -> (r: bool)
    ensures
        r == is_space(c),
{
    ('\t' <= c && c <= '\r') || c == ' ' || c == '\u{85}' || c == '\u{a0}' || c == '\u{1680}' || ('\u{2000}'
        <= c && c <= '\u{200a}') || c == '\u{2028}' || c == '\u{2029}' || c == '\u{202f}' || c == '\u{205f}'
        || c == '\u{3000}'
}

/// The end of the run of white space (if `space`) or of other characters that starts at `i`.
pub open spec fn run_end(s: Seq<char>, i: int, space: bool) -> int
    decreases s.len() - i,
{
    if 0 <= i < s.len() && is_space(s[i]) == space {
        run_end(s, i + 1, space)
    } else {
        i
    }
}

fn run_end_at(s: &[char], i: usize, sp: bool) -> (r: usize)
    requires
        i <= s@.len(),
    ensures
        r == run_end(s@, i as int, sp),
        i <= r <= s@.len(),
{
    let mut k = i;
    while k < s.len() && space(s[k]) == sp
        invariant
            i <= k <= s@.len(),
            run_end(s@, k as int, sp) == run_end(s@, i as int, sp),
        decreases s@.len() - k,
    {
        k = k + 1;
    }
    k
}

proof fn lemma_run_end_stuck(s: Seq<char>, i: int, sp: bool, j: int)
    requires
        0 <= i <= j <= s.len(),
        forall|k: int| i <= k < j ==> is_space(#[trigger] s[k]) == sp,
    ensures
        run_end(s, i, sp) == run_end(s, j, sp),
    decreases j - i,
{
    if i < j {
        lemma_run_end_stuck(s, i + 1, sp, j);
    }
}

/// Whether every character of `s[lo..hi]` is a hexadecimal digit.
pub open spec fn all_hex(s: Seq<char>, lo: int, hi: int) -> bool {
    forall|k: int| lo <= k < hi ==> (#[trigger] hex_value(s[k])) is Some
}

/// The section and the name that the rest of a line of the compiler's symbol table gives after
/// a `.`: the section, white space, a hexadecimal size, white space, and the name, which starts
/// with neither `.` nor `$` and has at least two characters, then only white space. A name that
/// does not fit takes the last character of the white space before it, if there are at least two.
pub open spec fn tail_fields(r: Seq<char>) -> Option<(Seq<char>, Seq<char>)> {
    let a = run_end(r, 0, false);
    let b = run_end(r, a, true);
    let h = run_end(r, b, false);
    let t0 = run_end(r, h, true);
    let te = run_end(r, t0, false);
    if a > 0 && b > a && h > b && all_hex(r, b, h) && t0 > h && run_end(r, te, true) == r.len() {
        if te - t0 >= 2 && r[t0] != '.' && r[t0] != '$' {
            Some((r.subrange(0, a), r.subrange(t0, te)))
        } else if t0 - h >= 2 && te - t0 >= 1 {
            Some((r.subrange(0, a), r.subrange(t0 - 1, te)))
        } else {
            None
        }
    } else {
        None
    }
}

/// The section and the name a line of the compiler's symbol table gives, trying the `.` at `p`
/// and those before it, last first: the line starts with a hexadecimal digit, and the rest after
/// the `.` fits.
pub open spec fn fields_from(line: Seq<char>, p: int) -> Option<(Seq<char>, Seq<char>)>
    decreases p,
{
    if p < 1 || p >= line.len() || hex_value(line[0]) is None {
        None
    } else if line[p] == '.' && tail_fields(line.subrange(p + 1, line.len() as int)) is Some {
        tail_fields(line.subrange(p + 1, line.len() as int))
    } else {
        fields_from(line, p - 1)
    }
}

/// The section and the name a line of the compiler's symbol table gives, if it gives a symbol.
pub open spec fn c_symbol_fields(line: Seq<char>) -> Option<(Seq<char>, Seq<char>)> {
    fields_from(line, line.len() - 1)
}

/// The section and the name of the rest `r` of a line after a `.`, if it fits.
#[verifier::loop_isolation(false)]
fn tail_fields_of(r: &[char]) -> (res: Option<(Vec<char>, Vec<char>)>)
    ensures
        res matches Some((sec, name)) ==> tail_fields(r@) == Some((sec@, name@)),
        res is None <==> tail_fields(r@) is None,
{
    let n = r.len();
    let a = run_end_at(r, 0, false);
    let b = run_end_at(r, a, true);
    let h = run_end_at(r, b, false);
    let t0 = run_end_at(r, h, true);
    let te = run_end_at(r, t0, false);
    let last = run_end_at(r, te, true);
    if !(a > 0 && b > a && h > b && t0 > h && last == n) {
        return None;
    }
    let mut k = b;
    while k < h
        invariant
            b <= k <= h <= n == r@.len(),
            forall|m: int| b <= m < k ==> (#[trigger] hex_value(r@[m])) is Some,
        decreases h - k,
    {
        if hex_digit_value(r[k]).is_none() {
            proof {
                assert(hex_value(r@[k as int]) is None);
                assert(!all_hex(r@, b as int, h as int));
            }
            return None;
        }
        k = k + 1;
    }
    if te - t0 >= 2 && r[t0] != '.' && r[t0] != '$' {
        Some((copy_range(r, 0, a), copy_range(r, t0, te)))
    } else if t0 - h >= 2 && te - t0 >= 1 {
        Some((copy_range(r, 0, a), copy_range(r, t0 - 1, te)))
    } else {
        None
    }
}

/// The section and the name a line of the compiler's symbol table gives, if it gives a symbol.
pub fn c_symbol_line(line: &[char]) -> (res: Option<(Vec<char>, Vec<char>)>)
    ensures
        res matches Some((sec, name)) ==> c_symbol_fields(line@) == Some((sec@, name@)),
        res is None <==> c_symbol_fields(line@) is None,
{
    let n = line.len();
    if n == 0 || hex_digit_value(line[0]).is_none() {
        return None;
    }
    let mut p = n - 1;
    while p >= 1
        invariant
            1 <= n == line@.len(),
            p < n,
            hex_value(line@[0]) is Some,
            fields_from(line@, p as int) == c_symbol_fields(line@),
        decreases p,
    {
        if line[p] == '.' {
            let rest = copy_range(line, p + 1, n);
            match tail_fields_of(rest.as_slice()) {
                Some(f) => {
                    return Some(f);
                },
                None => {},
            }
        }
        p = p - 1;
    }
    None
}

/// The kind of each symbol that the lines of the compiler's symbol table list, in order:
/// `true` for code (the `text` section).
pub fn c_symbol_kinds(lines: &Vec<Vec<char>>) -> (r: Vec<(Vec<char>, bool)>)
    ensures
        kind_views(r@) == listed_kinds(line_views(lines@), lines@.len() as int),
{
    let ghost lv = line_views(lines@);
    let text: Vec<char> = vec!['t', 'e', 'x', 't'];
    let mut out: Vec<(Vec<char>, bool)> = Vec::new();
    let mut i: usize = 0;
    while i < lines.len()
        invariant
            i <= lines@.len(),
            lv == line_views(lines@),
            text@ == seq!['t', 'e', 'x', 't'],
            kind_views(out@) == listed_kinds(lv, i as int),
        decreases lines@.len() - i,
    {
        let ghost before = kind_views(out@);
        assert(lv[i as int] == lines@[i as int]@);
        match c_symbol_line(lines[i].as_slice()) {
            Some((section, name)) => {
                let code = chars_equal(section.as_slice(), text.as_slice());
                let ghost nv = name@;
                out.push((name, code));
                proof {
                    assert(kind_views(out@) =~= before.push((nv, code)));
                }
            },
            None => {},
        }
        i = i + 1;
    }
    out
}

/// The kinds that the first `n` lines of the compiler's symbol table list.
pub open spec fn listed_kinds(lines: Seq<Seq<char>>, n: int) -> Seq<(Seq<char>, bool)>
    decreases n,
{
    if n <= 0 {
        Seq::empty()
    } else {
        match c_symbol_fields(lines[n - 1]) {
            Some((section, name)) => listed_kinds(lines, n - 1).push((name, section == seq!['t', 'e', 'x', 't'])),
            None => listed_kinds(lines, n - 1),
        }
    }
}

} // verus!
