//! The color-table resource format: one tile per line, five tab-separated
//! fields, of which the first is the decimal tile identifier and the second
//! a parenthesized, comma-separated RGB triple. Lines with another number of
//! fields are skipped; a malformed number in a five-field line is an error.
use vstd::prelude::*;
use crate::palette::{ColorTable, Rgb, TilesetRegistry};
use crate::style::STYLE_COUNT;

verus! {

/// Why a color-table resource could not be loaded.
#[derive(Clone, Copy, Debug, PartialEq, Eq, Structural)]
pub enum LoadError {
    /// The first field of a five-field line is not a decimal `u16`.
    TileId,
    /// The second field of a five-field line is not `(r,g,b...)` with
    /// decimal `u8` components.
    Color,
    /// Not exactly one resource per terrain style was given.
    StyleCount,
}

pub const NEWLINE: u8 = 10;
pub const TAB: u8 = 9;
pub const COMMA: u8 = 44;
pub const PLUS: u8 = 43;

/// The pieces of `s` between occurrences of `sep` (one piece more than there
/// are separators).
pub open spec fn split(s: Seq<u8>, sep: u8) -> Seq<Seq<u8>>
    decreases s.len(),
{
    if s.len() == 0 {
        seq![Seq::<u8>::empty()]
    } else {
        let prev = split(s.drop_last(), sep);
        if s.last() == sep {
            prev.push(Seq::<u8>::empty())
        } else {
            prev.update(prev.len() - 1, prev.last().push(s.last()))
        }
    }
}

proof fn lemma_split_nonempty(s: Seq<u8>, sep: u8)
    ensures
        split(s, sep).len() >= 1,
    decreases s.len(),
{
    if s.len() > 0 {
        lemma_split_nonempty(s.drop_last(), sep);
    }
}

/// The pieces of `s` between occurrences of `sep`.
pub fn split_bytes(s: &[u8], sep: u8) -> (r: Vec<Vec<u8>>)
    ensures
        r@.map_values(|v: Vec<u8>| v@) == split(s@, sep),
{
    let mut done: Vec<Vec<u8>> = Vec::new();
    let mut cur: Vec<u8> = Vec::new();
    let mut i: usize = 0;
    while i < s.len()
        invariant
            i <= s@.len(),
            done@.map_values(|v: Vec<u8>| v@).push(cur@) == split(s@.take(i as int), sep),
        decreases s@.len() - i,
    {
        let b = s[i];
        proof {
            assert(s@.take(i as int + 1).drop_last() =~= s@.take(i as int));
            lemma_split_nonempty(s@.take(i as int), sep);
        }
        if b == sep {
            let piece = cur;
            cur = Vec::new();
            done.push(piece);
            assert(done@.map_values(|v: Vec<u8>| v@).push(cur@) =~= split(s@.take(i as int + 1), sep));
        } else {
            let ghost before = done@.map_values(|v: Vec<u8>| v@).push(cur@);
            cur.push(b);
            assert(done@.map_values(|v: Vec<u8>| v@).push(cur@) =~= before.update(before.len() - 1, before.last().push(b)));
        }
        i = i + 1;
    }
    assert(s@.take(s@.len() as int) =~= s@);
    done.push(cur);
    assert(done@.map_values(|v: Vec<u8>| v@) =~= split(s@, sep));
    done
}

/// `b` is an ASCII decimal digit.
pub open spec fn is_digit(b: u8) -> bool {
    48 <= b <= 57
}

/// The value of a string of decimal digits.
pub open spec fn digits_value(s: Seq<u8>) -> nat
    decreases s.len(),
{
    if s.len() == 0 {
        0
    } else {
        digits_value(s.drop_last()) * 10 + (s.last() - 48) as nat
    }
}

/// The digits of a decimal numeral: all but a leading `+`.
pub open spec fn numeral_digits(s: Seq<u8>) -> Seq<u8> {
    if s.len() > 0 && s[0] == PLUS {
        s.skip(1)
    } else {
        s
    }
}

/// The value of the unsigned decimal numeral `s` (an optional `+`, then at
/// least one digit), where it is at most `max`.
pub open spec fn decimal_value(s: Seq<u8>, max: nat) -> Option<nat> {
    let d = numeral_digits(s);
    if d.len() > 0 && (forall|i: int| 0 <= i < d.len() ==> is_digit(#[trigger] d[i])) && digits_value(d) <= max {
        Some(digits_value(d))
    } else {
        None
    }
}

proof fn lemma_digits_grow(s: Seq<u8>, k: int)
    requires
        0 <= k <= s.len(),
        forall|i: int| 0 <= i < s.len() ==> is_digit(#[trigger] s[i]),
    ensures
        digits_value(s.take(k)) <= digits_value(s),
    decreases s.len(),
{
    if k < s.len() {
        assert(s.drop_last().take(k) =~= s.take(k));
        lemma_digits_grow(s.drop_last(), k);
    } else {
        assert(s.take(k) =~= s);
    }
}

/// Parses an unsigned decimal numeral whose value is at most `max`.
pub fn parse_decimal(s: &[u8], max: u32) -> (r: Option<u32>)
    ensures
        match decimal_value(s@, max as nat) {
            Some(v) => r == Some(v as u32),
            None => r is None,
        },
{
    let start: usize = if s.len() > 0 && s[0] == PLUS { 1 } else { 0 };
    let ghost d = numeral_digits(s@);
    assert(d =~= s@.skip(start as int));
    if start >= s.len() {
        return None;
    }
    let mut val: u32 = 0;
    let mut i: usize = start;
    while i < s.len()
        invariant
            d == numeral_digits(s@),
            d =~= s@.skip(start as int),
            start <= i <= s@.len(),
            val == digits_value(d.take(i - start)),
            val <= max,
            forall|j: int| 0 <= j < i - start ==> is_digit(#[trigger] d[j]),
        decreases s@.len() - i,
    {
        let b = s[i];
        if b < 48 || b > 57 {
            assert(d[i - start] == s@[i as int]);
            assert(!is_digit(d[i - start]));
            assert(!(forall|j: int| 0 <= j < d.len() ==> is_digit(#[trigger] d[j])));
            return None;
        }
        proof {
            assert(d.take(i - start + 1).drop_last() =~= d.take(i - start));
        }
        let digit: u32 = (b - 48) as u32;
        if digit > max || val > (max - digit) / 10 {
            proof {
                assert(d[i - start] == s@[i as int]);
                assert(digits_value(d.take(i - start + 1)) == val * 10 + digit);
                assert(val * 10 + digit > max) by (nonlinear_arith)
                    requires
                        digit > max || val > (max - digit) / 10,
                        val >= 0,
                ;
                if forall|j: int| 0 <= j < d.len() ==> is_digit(#[trigger] d[j]) {
                    lemma_digits_grow(d, i - start + 1);
                }
            }
            return None;
        }
        assert(d[i - start] == s@[i as int]);
        assert(val * 10 + digit <= max) by (nonlinear_arith)
            requires
                digit <= max,
                val <= (max - digit) / 10,
        ;
        val = val * 10 + digit;
        i = i + 1;
    }
    assert(d.take(i - start) =~= d);
    Some(val)
}

/// The color of a second field `(r,g,b...)`: the bytes between the first and
/// the last, split at commas, must all be decimal `u8` numerals, at least
/// three of them; the first three give the channels.
pub open spec fn color_value(f: Seq<u8>) -> Option<Rgb> {
    if f.len() < 2 {
        None
    } else {
        let comps = split(f.subrange(1, f.len() - 1), COMMA);
        if comps.len() >= 3 && (forall|i: int| 0 <= i < comps.len() ==> #[trigger] decimal_value(comps[i], 255) is Some) {
            Some(Rgb {
                r: decimal_value(comps[0], 255)->0 as u8,
                g: decimal_value(comps[1], 255)->0 as u8,
                b: decimal_value(comps[2], 255)->0 as u8,
            })
        } else {
            None
        }
    }
}

/// What one line contributes: nothing unless it has exactly five
/// tab-separated fields; else its tile and color, or the error in them.
pub open spec fn line_entry(line: Seq<u8>) -> Result<Option<(u16, Rgb)>, LoadError> {
    let fields = split(line, TAB);
    if line.len() == 0 || fields.len() != 5 {
        Ok(None)
    } else {
        match decimal_value(fields[0], 65535) {
            None => Err(LoadError::TileId),
            Some(id) => match color_value(fields[1]) {
                None => Err(LoadError::Color),
                Some(c) => Ok(Some((id as u16, c))),
            },
        }
    }
}

/// The table of a sequence of lines, in order: a later line for a tile
/// replaces an earlier one; the first line in error decides the error.
pub open spec fn table_of_lines(lines: Seq<Seq<u8>>) -> Result<Map<u16, Rgb>, LoadError>
    decreases lines.len(),
{
    if lines.len() == 0 {
        Ok(Map::empty())
    } else {
        match table_of_lines(lines.drop_last()) {
            Err(e) => Err(e),
            Ok(m) => match line_entry(lines.last()) {
                Err(e) => Err(e),
                Ok(None) => Ok(m),
                Ok(Some((id, c))) => Ok(m.insert(id, c)),
            },
        }
    }
}

/// The table of a whole resource, read line by line.
pub open spec fn color_table_of(src: Seq<u8>) -> Result<Map<u16, Rgb>, LoadError> {
    table_of_lines(split(src, NEWLINE))
}

/// The color of a second field, as `color_value` states it.
pub fn parse_color(f: &[u8]) -> (r: Option<Rgb>)
    ensures
        r == color_value(f@),
{
    if f.len() < 2 {
        return None;
    }
    let end: usize = f.len() - 1;
    let mut inner: Vec<u8> = Vec::new();
    let mut i: usize = 1;
    while i < end
        invariant
            end == f@.len() - 1,
            1 <= i <= end,
            inner@ == f@.subrange(1, i as int),
        decreases end - i,
    {
        inner.push(f[i]);
        assert(inner@ =~= f@.subrange(1, i as int + 1));
        i = i + 1;
    }
    let comps = split_bytes(inner.as_slice(), COMMA);
    let ghost cv = comps@.map_values(|v: Vec<u8>| v@);
    assert(cv == split(f@.subrange(1, f@.len() - 1), COMMA));
    let mut vals: Vec<u8> = Vec::new();
    let mut k: usize = 0;
    while k < comps.len()
        invariant
            cv == comps@.map_values(|v: Vec<u8>| v@),
            cv == split(f@.subrange(1, f@.len() - 1), COMMA),
            f@.len() >= 2,
            k <= comps@.len(),
            vals@.len() == k,
            forall|j: int| 0 <= j < k ==> decimal_value(#[trigger] cv[j], 255) == Some(vals@[j] as nat),
        decreases comps@.len() - k,
    {
        match parse_decimal(comps[k].as_slice(), 255) {
            Some(v) => {
                assert(comps[k as int]@ == cv[k as int]);
                vals.push(v as u8);
            },
            None => {
                assert(comps[k as int]@ == cv[k as int]);
                assert(decimal_value(cv[k as int], 255) is None);
                assert(!(forall|j: int| 0 <= j < cv.len() ==> #[trigger] decimal_value(cv[j], 255) is Some));
                return None;
            },
        }
        k = k + 1;
    }
    if vals.len() < 3 {
        return None;
    }
    assert(forall|j: int| 0 <= j < cv.len() ==> #[trigger] decimal_value(cv[j], 255) is Some);
    Some(Rgb { r: vals[0], g: vals[1], b: vals[2] })
}

/// What one line contributes, as `line_entry` states it.
pub fn parse_line(line: &[u8]) -> (r: Result<Option<(u16, Rgb)>, LoadError>)
    ensures
        r == line_entry(line@),
{
    if line.len() == 0 {
        return Ok(None);
    }
    let fields = split_bytes(line, TAB);
    if fields.len() != 5 {
        return Ok(None);
    }
    let id = match parse_decimal(fields[0].as_slice(), 65535) {
        Some(id) => id,
        None => return Err(LoadError::TileId),
    };
    match parse_color(fields[1].as_slice()) {
        Some(c) => Ok(Some((id as u16, c))),
        None => Err(LoadError::Color),
    }
}

/// Loads a color table from its resource text.
pub fn parse_color_table(src: &[u8]) -> (r: Result<ColorTable, LoadError>)
    ensures
        match r {
            Ok(t) => color_table_of(src@) == Ok::<Map<u16, Rgb>, LoadError>(t@),
            Err(e) => color_table_of(src@) == Err::<Map<u16, Rgb>, LoadError>(e),
        },
{
    let lines = split_bytes(src, NEWLINE);
    let ghost lv = lines@.map_values(|v: Vec<u8>| v@);
    let mut table = ColorTable::new();
    let mut k: usize = 0;
    assert(lv.take(0) =~= Seq::<Seq<u8>>::empty());
    while k < lines.len()
        invariant
            lv == lines@.map_values(|v: Vec<u8>| v@),
            lv == split(src@, NEWLINE),
            k <= lines@.len(),
            table_of_lines(lv.take(k as int)) == Ok::<Map<u16, Rgb>, LoadError>(table@),
        decreases lines@.len() - k,
    {
        assert(lv.take(k as int + 1).drop_last() =~= lv.take(k as int));
        assert(lv.take(k as int + 1).last() == lv[k as int]);
        assert(lines[k as int]@ == lv[k as int]);
        match parse_line(lines[k].as_slice()) {
            Ok(Some((id, c))) => {
                table.insert(id, c);
            },
            Ok(None) => {},
            Err(e) => {
                assert(table_of_lines(lv.take(k as int + 1)) == Err::<Map<u16, Rgb>, LoadError>(e));
                proof {
                    lemma_error_persists(lv, k as int + 1, e);
                }
                return Err(e);
            },
        }
        k = k + 1;
    }
    assert(lv.take(lines@.len() as int) =~= lv);
    Ok(table)
}

proof fn lemma_table_error_kind(lines: Seq<Seq<u8>>)
    ensures
        table_of_lines(lines) != Err::<Map<u16, Rgb>, LoadError>(LoadError::StyleCount),
    decreases lines.len(),
{
    if lines.len() > 0 {
        lemma_table_error_kind(lines.drop_last());
    }
}

proof fn lemma_error_persists(lines: Seq<Seq<u8>>, k: int, e: LoadError)
    requires
        0 <= k <= lines.len(),
        table_of_lines(lines.take(k)) == Err::<Map<u16, Rgb>, LoadError>(e),
    ensures
        table_of_lines(lines) == Err::<Map<u16, Rgb>, LoadError>(e),
    decreases lines.len() - k,
{
    if k < lines.len() {
        assert(lines.take(k + 1).drop_last() =~= lines.take(k));
        lemma_error_persists(lines, k + 1, e);
    } else {
        assert(lines.take(k) =~= lines);
    }
}

/// Loads the registry from the resources of styles `0..8`, in order. On
/// error, the error of the first resource that fails.
pub fn load_tilesets(sources: &[Vec<u8>]) -> (r: Result<TilesetRegistry, LoadError>)
    ensures
        (r is Ok) <==> (sources@.len() == STYLE_COUNT && forall|i: int| 0 <= i < sources@.len() ==> #[trigger] color_table_of(sources@[i]@) is Ok),
        r matches Ok(reg) ==> reg.wf() && forall|i: int| 0 <= i < STYLE_COUNT ==> color_table_of(sources@[i]@) == Ok::<Map<u16, Rgb>, LoadError>(#[trigger] reg@[i]),
        r == Err::<TilesetRegistry, LoadError>(LoadError::StyleCount) <==> sources@.len() != STYLE_COUNT,
        r matches Err(e) ==> (e != LoadError::StyleCount ==> exists|i: int| 0 <= i < sources@.len() && #[trigger] color_table_of(sources@[i]@) == Err::<Map<u16, Rgb>, LoadError>(e)
            && forall|j: int| 0 <= j < i ==> #[trigger] color_table_of(sources@[j]@) is Ok),
{
    if sources.len() != STYLE_COUNT as usize {
        return Err(LoadError::StyleCount);
    }
    let mut tables: Vec<ColorTable> = Vec::new();
    let mut i: usize = 0;
    while i < sources.len()
        invariant
            sources@.len() == STYLE_COUNT,
            i <= sources@.len(),
            tables@.len() == i,
            forall|j: int| 0 <= j < i ==> #[trigger] color_table_of(sources@[j]@) == Ok::<Map<u16, Rgb>, LoadError>(tables@[j]@),
        decreases sources@.len() - i,
    {
        match parse_color_table(sources[i].as_slice()) {
            Ok(t) => {
                tables.push(t);
            },
            Err(e) => {
                proof {
                    lemma_table_error_kind(split(sources@[i as int]@, NEWLINE));
                }
                return Err(e);
            },
        }
        i = i + 1;
    }
    let ghost tv = tables@;
    match TilesetRegistry::from_tables(tables) {
        Some(reg) => {
            assert forall|j: int| 0 <= j < STYLE_COUNT implies color_table_of(sources@[j]@) == Ok::<Map<u16, Rgb>, LoadError>(#[trigger] reg@[j]) by {
                assert(reg@[j] == tv[j]@);
            }
            Ok(reg)
        },
        None => Err(LoadError::StyleCount),
    }
}

} // verus!
