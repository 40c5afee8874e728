//! Human-readable rendering of a table: simple tables as a range/text
//! grid, compound tables as a list of sub-tables.

use vstd::prelude::*;
use crate::models::{ChainRef, ModifierRange, ResultBinding, ResultEntry, RollResult, Table};
use crate::search::result_view;
use crate::text::{decimal, nat_digits, push_char, push_i64, push_str, push_u64};

verus! {

/// `parts` joined with `sep` between neighbours.
pub open spec fn joined(parts: Seq<Seq<char>>, sep: Seq<char>) -> Seq<char>
    decreases parts.len(),
{
    if parts.len() == 0 {
        Seq::empty()
    } else if parts.len() == 1 {
        parts[0]
    } else {
        joined(parts.drop_last(), sep) + sep + parts.last()
    }
}

/// The characters of each string.
pub open spec fn string_views(v: Seq<String>) -> Seq<Seq<char>> {
    v.map_values(|s: String| s@)
}

/// The debug form of a list of die values: `[1, 2]`.
pub open spec fn values_debug(v: Seq<u32>) -> Seq<char> {
    "["@ + joined(v.map_values(|x: u32| nat_digits(x as nat)), ", "@) + "]"@
}

/// How a chain reference is shown: its table, followed by the reroll
/// values when there are any.
pub open spec fn chain_text(c: ChainRef) -> Seq<char> {
    match c {
        ChainRef::Simple(id) => id@,
        ChainRef::Modified { table, reroll } => if reroll@.len() == 0 {
            table@
        } else {
            table@ + " (reroll "@ + values_debug(reroll@) + ")"@
        },
    }
}

/// The range column of an entry: `min`, or `min-max` when they differ.
pub open spec fn range_text(e: ResultEntry) -> Seq<char> {
    if e.min == e.max {
        decimal(e.min as int)
    } else {
        decimal(e.min as int) + "-"@ + decimal(e.max as int)
    }
}

/// The widest range column among `results`.
pub open spec fn widest(results: Seq<ResultEntry>) -> nat
    decreases results.len(),
{
    if results.len() == 0 {
        0
    } else {
        let w = widest(results.drop_last());
        let l = range_text(results.last()).len();
        if l > w {
            l
        } else {
            w
        }
    }
}

/// The width of the range column (1 when there are no entries).
pub open spec fn range_width(results: Seq<ResultEntry>) -> nat {
    if results.len() == 0 {
        1
    } else {
        widest(results)
    }
}

/// `n` spaces.
pub open spec fn spaces(n: nat) -> Seq<char> {
    Seq::new(n, |i: int| ' ')
}

/// `s` right-aligned in a column of `w` characters.
pub open spec fn pad_left(s: Seq<char>, w: nat) -> Seq<char> {
    if s.len() < w {
        spaces((w - s.len()) as nat) + s
    } else {
        s
    }
}

/// The arrow and chain references of an entry, when it chains.
pub open spec fn chain_suffix(chain: Option<Vec<ChainRef>>) -> Seq<char> {
    match chain {
        Some(v) => if v@.len() > 0 {
            " → "@ + joined(v@.map_values(|c: ChainRef| chain_text(c)), ", "@)
        } else {
            Seq::empty()
        },
        None => Seq::empty(),
    }
}

/// The declared bindings of an entry, one line each, shown as source.
pub open spec fn binding_lines(b: Seq<ResultBinding>) -> Seq<char>
    decreases b.len(),
{
    if b.len() == 0 {
        Seq::empty()
    } else {
        binding_lines(b.drop_last()) + "      let "@ + b.last().name@ + " = "@ + b.last().value@
            + "\n"@
    }
}

/// The text of an entry, or nothing.
pub open spec fn entry_text(t: Option<String>) -> Seq<char> {
    match t {
        Some(s) => s@,
        None => Seq::empty(),
    }
}

/// One row of the grid, followed by the entry's binding lines.
pub open spec fn entry_lines(e: ResultEntry, w: nat) -> Seq<char> {
    "  "@ + pad_left(range_text(e), w) + "  "@ + entry_text(e.text) + chain_suffix(e.chain) + "\n"@
        + binding_lines(e.bindings@)
}

/// The grid rows of `results`.
pub open spec fn grid(results: Seq<ResultEntry>, w: nat) -> Seq<char>
    decreases results.len(),
{
    if results.len() == 0 {
        Seq::empty()
    } else {
        grid(results.drop_last(), w) + entry_lines(results.last(), w)
    }
}

/// The notes block, when notes are shown and exist.
pub open spec fn notes_block(show_notes: bool, notes: Seq<String>) -> Seq<char> {
    if show_notes && notes.len() > 0 {
        "Notes:\n"@ + note_lines(notes)
    } else {
        Seq::empty()
    }
}

pub open spec fn note_lines(notes: Seq<String>) -> Seq<char>
    decreases notes.len(),
{
    if notes.len() == 0 {
        Seq::empty()
    } else {
        note_lines(notes.drop_last()) + "  - "@ + notes.last()@ + "\n"@
    }
}

/// The tags line, when there are tags.
pub open spec fn tags_line(tags: Seq<String>) -> Seq<char> {
    if tags.len() > 0 {
        "Tags: "@ + joined(string_views(tags), ", "@) + "\n"@
    } else {
        Seq::empty()
    }
}

/// The modifier line, when the table takes a modifier.
pub open spec fn modifier_line(m: Option<ModifierRange>) -> Seq<char> {
    match m {
        Some(mr) => "Modifier: "@ + decimal(mr.min as int) + " to "@ + decimal(mr.max as int) + "\n"@,
        None => Seq::empty(),
    }
}

pub open spec fn sub_table_lines(tables: Seq<String>) -> Seq<char>
    decreases tables.len(),
{
    if tables.len() == 0 {
        Seq::empty()
    } else {
        sub_table_lines(tables.drop_last()) + "  - "@ + tables.last()@ + "\n"@
    }
}

/// How a table is displayed.
pub open spec fn table_display(fqid: Seq<char>, table: Table, show_notes: bool) -> Seq<char> {
    match table {
        Table::Simple { name, tags, roll, modifier_range, notes, results, .. } => name@ + " ("@ + fqid
            + ")\n"@ + tags_line(tags@) + "Roll: "@ + roll@ + "\n"@ + modifier_line(modifier_range)
            + notes_block(show_notes, notes@) + "\n"@ + grid(results@, range_width(results@)),
        Table::Compound { name, tags, notes, tables, .. } => name@ + " ("@ + fqid + ")\n"@
            + tags_line(tags@) + notes_block(show_notes, notes@) + if notes_block(
            show_notes,
            notes@,
        ).len() > 0 {
            "\n"@
        } else {
            Seq::empty()
        } + "Tables:\n"@ + sub_table_lines(tables@),
    }
}

pub(crate) fn push_joined_strings(out: &mut String, parts: &Vec<String>, sep: &str)
    ensures
        final(out)@ == old(out)@ + joined(string_views(parts@), sep@),
{
    let mut i: usize = 0;
    while i < parts.len()
        invariant
            i <= parts@.len(),
            out@ == old(out)@ + joined(string_views(parts@).take(i as int), sep@),
        decreases parts@.len() - i,
    {
        let ghost t = string_views(parts@).take(i + 1);
        assert(t.drop_last() =~= string_views(parts@).take(i as int));
        assert(t.last() == parts@[i as int]@);
        if i > 0 {
            push_str(out, sep);
        }
        push_str(out, parts[i].as_str());
        proof {
            if i == 0 {
                assert(t.len() == 1);
            }
        }
        i = i + 1;
    }
    assert(string_views(parts@).take(parts@.len() as int) =~= string_views(parts@));
}

fn push_values_debug(out: &mut String, v: &[u32])
    ensures
        final(out)@ == old(out)@ + values_debug(v@),
{
    let ghost parts = v@.map_values(|x: u32| nat_digits(x as nat));
    push_str(out, "[");
    let ghost start = out@;
    let mut i: usize = 0;
    while i < v.len()
        invariant
            i <= v@.len(),
            parts == v@.map_values(|x: u32| nat_digits(x as nat)),
            out@ == start + joined(parts.take(i as int), ", "@),
        decreases v@.len() - i,
    {
        let ghost t = parts.take(i + 1);
        assert(t.drop_last() =~= parts.take(i as int));
        if i > 0 {
            push_str(out, ", ");
        }
        push_u64(out, v[i] as u64);
        i = i + 1;
    }
    assert(parts.take(v@.len() as int) =~= parts);
    push_str(out, "]");
    assert(final(out)@ =~= old(out)@ + values_debug(v@));
}

/// Append how a chain reference is shown.
fn push_chain_text(out: &mut String, c: &ChainRef)
    ensures
        final(out)@ == old(out)@ + chain_text(*c),
{
    match c {
        ChainRef::Simple(id) => push_str(out, id.as_str()),
        ChainRef::Modified { table, reroll } => {
            push_str(out, table.as_str());
            if reroll.len() > 0 {
                push_str(out, " (reroll ");
                push_values_debug(out, reroll.as_slice());
                push_str(out, ")");
            }
        },
    }
    assert(final(out)@ =~= old(out)@ + chain_text(*c));
}

impl ChainRef {
    /// How the reference is shown: its table, followed by the reroll
    /// values when there are any, as in `mishap (reroll [1, 2])`.
    pub fn to_text(&self) -> (r: String)
        ensures
            r@ == chain_text(*self),
    {
        let mut out = String::new();
        push_chain_text(&mut out, self);
        out
    }
}

fn push_chain_suffix(out: &mut String, chain: &Option<Vec<ChainRef>>)
    ensures
        final(out)@ == old(out)@ + chain_suffix(*chain),
{
    match chain {
        Some(v) => {
            if v.len() > 0 {
                push_str(out, " → ");
                let ghost parts = v@.map_values(|c: ChainRef| chain_text(c));
                let ghost start = out@;
                let mut i: usize = 0;
                while i < v.len()
                    invariant
                        i <= v@.len(),
                        parts == v@.map_values(|c: ChainRef| chain_text(c)),
                        out@ == start + joined(parts.take(i as int), ", "@),
                    decreases v@.len() - i,
                {
                    let ghost t = parts.take(i + 1);
                    assert(t.drop_last() =~= parts.take(i as int));
                    if i > 0 {
                        push_str(out, ", ");
                    }
                    push_chain_text(out, &v[i]);
                    i = i + 1;
                }
                assert(parts.take(v@.len() as int) =~= parts);
            }
        },
        None => {},
    }
    assert(final(out)@ =~= old(out)@ + chain_suffix(*chain));
}

fn range_string(e: &ResultEntry) -> (s: String)
    ensures
        s@ == range_text(*e),
{
    let mut s = String::new();
    push_i64(&mut s, e.min as i64);
    if e.min != e.max {
        push_str(&mut s, "-");
        push_i64(&mut s, e.max as i64);
    }
    assert(s@ =~= range_text(*e));
    s
}

fn push_entry_lines(out: &mut String, e: &ResultEntry, w: usize)
    ensures
        final(out)@ == old(out)@ + entry_lines(*e, w as nat),
{
    push_str(out, "  ");
    let r = range_string(e);
    let n = crate::text::chars_of(r.as_str()).len();
    let mut k: usize = n;
    while k < w
        invariant
            n == range_text(*e).len(),
            n <= k <= w || w < n,
            k == n || n < w,
            out@ == old(out)@ + "  "@ + spaces((k - n) as nat),
        decreases w - k,
    {
        push_char(out, ' ');
        k = k + 1;
        assert(spaces((k - n) as nat) =~= spaces((k - 1 - n) as nat).push(' '));
    }
    proof {
        if w <= n {
            assert(spaces((k - n) as nat) =~= Seq::<char>::empty());
        }
    }
    push_str(out, r.as_str());
    push_str(out, "  ");
    match &e.text {
        Some(t) => push_str(out, t.as_str()),
        None => {},
    }
    push_chain_suffix(out, &e.chain);
    push_str(out, "\n");
    let ghost mid = out@;
    let mut j: usize = 0;
    while j < e.bindings.len()
        invariant
            j <= e.bindings@.len(),
            out@ == mid + binding_lines(e.bindings@.take(j as int)),
        decreases e.bindings@.len() - j,
    {
        let ghost t = e.bindings@.take(j + 1);
        assert(t.drop_last() =~= e.bindings@.take(j as int));
        push_str(out, "      let ");
        push_str(out, e.bindings[j].name.as_str());
        push_str(out, " = ");
        push_str(out, e.bindings[j].value.as_str());
        push_str(out, "\n");
        j = j + 1;
    }
    assert(e.bindings@.take(e.bindings@.len() as int) =~= e.bindings@);
    assert(final(out)@ =~= old(out)@ + entry_lines(*e, w as nat));
}

/// Write the notes block when notes should be shown and exist; returns
/// whether it was written.
fn render_notes(out: &mut String, show_notes: bool, notes: &Vec<String>) -> (written: bool)
    ensures
        final(out)@ == old(out)@ + notes_block(show_notes, notes@),
        written == (notes_block(show_notes, notes@).len() > 0),
{
    if show_notes && notes.len() > 0 {
        push_str(out, "Notes:\n");
        let ghost start = out@;
        let mut i: usize = 0;
        while i < notes.len()
            invariant
                i <= notes@.len(),
                out@ == start + note_lines(notes@.take(i as int)),
            decreases notes@.len() - i,
        {
            let ghost t = notes@.take(i + 1);
            assert(t.drop_last() =~= notes@.take(i as int));
            push_str(out, "  - ");
            push_str(out, notes[i].as_str());
            push_str(out, "\n");
            i = i + 1;
        }
        assert(notes@.take(notes@.len() as int) =~= notes@);
        assert(final(out)@ =~= old(out)@ + notes_block(show_notes, notes@));
        proof {
            reveal_strlit("Notes:\n");
            assert(notes_block(show_notes, notes@).len() > 0);
        }
        true
    } else {
        false
    }
}

fn push_tags_line(out: &mut String, tags: &Vec<String>)
    ensures
        final(out)@ == old(out)@ + tags_line(tags@),
{
    if tags.len() > 0 {
        push_str(out, "Tags: ");
        push_joined_strings(out, tags, ", ");
        push_str(out, "\n");
    }
    assert(final(out)@ =~= old(out)@ + tags_line(tags@));
}

fn column_width(results: &Vec<ResultEntry>) -> (w: usize)
    ensures
        w == range_width(results@),
{
    if results.len() == 0 {
        return 1;
    }
    let mut w: usize = 0;
    let mut i: usize = 0;
    while i < results.len()
        invariant
            i <= results@.len(),
            w == widest(results@.take(i as int)),
        decreases results@.len() - i,
    {
        let ghost t = results@.take(i + 1);
        assert(t.drop_last() =~= results@.take(i as int));
        let r = range_string(&results[i]);
        let l = crate::text::chars_of(r.as_str()).len();
        if l > w {
            w = l;
        }
        i = i + 1;
    }
    assert(results@.take(results@.len() as int) =~= results@);
    w
}

/// Render a table for display.
pub fn format_table(fqid: &str, table: &Table, show_notes: bool) -> (out: String)
    ensures
        out@ == table_display(fqid@, *table, show_notes),
{
    let mut out = String::new();
    match table {
        Table::Simple { name, tags, roll, modifier_range, notes, results, .. } => {
            push_str(&mut out, name.as_str());
            push_str(&mut out, " (");
            push_str(&mut out, fqid);
            push_str(&mut out, ")\n");
            push_tags_line(&mut out, tags);
            push_str(&mut out, "Roll: ");
            push_str(&mut out, roll.as_str());
            push_str(&mut out, "\n");
            match modifier_range {
                Some(mr) => {
                    push_str(&mut out, "Modifier: ");
                    push_i64(&mut out, mr.min as i64);
                    push_str(&mut out, " to ");
                    push_i64(&mut out, mr.max as i64);
                    push_str(&mut out, "\n");
                },
                None => {},
            }
            render_notes(&mut out, show_notes, notes);
            push_str(&mut out, "\n");
            let w = column_width(results);
            let ghost head = out@;
            let mut i: usize = 0;
            while i < results.len()
                invariant
                    i <= results@.len(),
                    w == range_width(results@),
                    out@ == head + grid(results@.take(i as int), w as nat),
                decreases results@.len() - i,
            {
                let ghost t = results@.take(i + 1);
                assert(t.drop_last() =~= results@.take(i as int));
                push_entry_lines(&mut out, &results[i], w);
                i = i + 1;
            }
            assert(results@.take(results@.len() as int) =~= results@);
        },
        Table::Compound { name, tags, notes, tables, .. } => {
            push_str(&mut out, name.as_str());
            push_str(&mut out, " (");
            push_str(&mut out, fqid);
            push_str(&mut out, ")\n");
            push_tags_line(&mut out, tags);
            if render_notes(&mut out, show_notes, notes) {
                push_str(&mut out, "\n");
            }
            push_str(&mut out, "Tables:\n");
            let ghost head = out@;
            let mut i: usize = 0;
            while i < tables.len()
                invariant
                    i <= tables@.len(),
                    out@ == head + sub_table_lines(tables@.take(i as int)),
                decreases tables@.len() - i,
            {
                let ghost t = tables@.take(i + 1);
                assert(t.drop_last() =~= tables@.take(i as int));
                push_str(&mut out, "  - ");
                push_str(&mut out, tables[i].as_str());
                push_str(&mut out, "\n");
                i = i + 1;
            }
            assert(tables@.take(tables@.len() as int) =~= tables@);
        },
    }
    assert(out@ =~= table_display(fqid@, *table, show_notes));
    out
}

proof fn lemma_widest_bounds(results: Seq<ResultEntry>)
    ensures
        forall|i: int| 0 <= i < results.len() ==> range_text(#[trigger] results[i]).len() <= widest(results),
        results.len() > 0 ==> exists|i: int| 0 <= i < results.len() && range_text(#[trigger] results[i]).len() == widest(results),
    decreases results.len(),
{
    if results.len() > 0 {
        let init = results.drop_last();
        lemma_widest_bounds(init);
        assert forall|i: int| 0 <= i < results.len() implies range_text(#[trigger] results[i]).len() <= widest(results) by {
            if i < init.len() {
                assert(init[i] == results[i]);
            }
        }
        if range_text(results.last()).len() > widest(init) || init.len() == 0 {
            assert(range_text(results[results.len() - 1]).len() == widest(results));
        } else {
            let j = choose|j: int| 0 <= j < init.len() && range_text(#[trigger] init[j]).len() == widest(init);
            assert(init[j] == results[j]);
        }
    }
}

/// A law of the range column of a table: it is as wide as the widest
/// range among the entries (one character when there are none), and each
/// entry's range is right-aligned in it: padded on the left with spaces
/// to exactly that width.
pub proof fn lemma_range_column(results: Seq<ResultEntry>)
    ensures
        forall|i: int| 0 <= i < results.len() ==> range_text(#[trigger] results[i]).len() <= range_width(results),
        results.len() > 0 ==> exists|i: int|
            0 <= i < results.len() && range_text(#[trigger] results[i]).len() == range_width(results),
        results.len() == 0 ==> range_width(results) == 1,
        forall|i: int|
            0 <= i < results.len() ==> {
                let r = range_text(#[trigger] results[i]);
                let cell = pad_left(r, range_width(results));
                &&& cell.len() == range_width(results)
                &&& cell.skip(cell.len() - r.len()) == r
                &&& forall|j: int| 0 <= j < cell.len() - r.len() ==> cell[j] == ' '
            },
{
    lemma_widest_bounds(results);
    assert forall|i: int| 0 <= i < results.len() implies {
        let r = range_text(#[trigger] results[i]);
        let cell = pad_left(r, range_width(results));
        &&& cell.len() == range_width(results)
        &&& cell.skip(cell.len() - r.len()) == r
        &&& forall|j: int| 0 <= j < cell.len() - r.len() ==> cell[j] == ' '
    } by {
        let r = range_text(results[i]);
        let cell = pad_left(r, range_width(results));
        assert(cell.skip(cell.len() - r.len()) =~= r);
    }
}

proof fn lemma_grid_flatten(results: Seq<ResultEntry>, w: nat)
    ensures
        grid(results, w) == Seq::new(results.len(), |i: int| entry_lines(results[i], w)).flatten(),
    decreases results.len(),
{
    let all = Seq::new(results.len(), |i: int| entry_lines(results[i], w));
    if results.len() == 0 {
        assert(all =~= Seq::<Seq<char>>::empty());
    } else {
        let init = results.drop_last();
        let fewer = Seq::new(init.len(), |i: int| entry_lines(init[i], w));
        lemma_grid_flatten(init, w);
        assert(all =~= fewer.push(entry_lines(results.last(), w)));
        fewer.lemma_flatten_push(entry_lines(results.last(), w));
    }
}

proof fn lemma_sub_tables_flatten(tables: Seq<String>)
    ensures
        sub_table_lines(tables) == Seq::new(tables.len(), |i: int| "  - "@ + tables[i]@ + "\n"@).flatten(),
    decreases tables.len(),
{
    let all = Seq::new(tables.len(), |i: int| "  - "@ + tables[i]@ + "\n"@);
    if tables.len() == 0 {
        assert(all =~= Seq::<Seq<char>>::empty());
    } else {
        let init = tables.drop_last();
        let fewer = Seq::new(init.len(), |i: int| "  - "@ + init[i]@ + "\n"@);
        lemma_sub_tables_flatten(init);
        assert(all =~= fewer.push("  - "@ + tables.last()@ + "\n"@));
        fewer.lemma_flatten_push("  - "@ + tables.last()@ + "\n"@);
    }
}

/// A law of displaying a table: after its header, a simple table shows
/// one row for each of its entries, every one of them and in order, all
/// with the same range column; a compound table lists each of its
/// sub-tables, every one of them and in order, on a line of its own.
pub proof fn lemma_table_display_rows(fqid: Seq<char>, table: Table, show_notes: bool)
    ensures
        table matches Table::Simple { results, .. } ==> {
            let rows = Seq::new(results@.len(), |i: int| entry_lines(results@[i], range_width(results@))).flatten();
            &&& table_display(fqid, table, show_notes).len() >= rows.len()
            &&& table_display(fqid, table, show_notes).skip(
                table_display(fqid, table, show_notes).len() - rows.len(),
            ) == rows
        },
        table matches Table::Compound { tables, .. } ==> {
            let rows = Seq::new(tables@.len(), |i: int| "  - "@ + tables@[i]@ + "\n"@).flatten();
            &&& table_display(fqid, table, show_notes).len() >= rows.len()
            &&& table_display(fqid, table, show_notes).skip(
                table_display(fqid, table, show_notes).len() - rows.len(),
            ) == rows
        },
{
    let d = table_display(fqid, table, show_notes);
    match table {
        Table::Simple { results, .. } => {
            lemma_grid_flatten(results@, range_width(results@));
            let rows = grid(results@, range_width(results@));
            assert(d.skip(d.len() - rows.len()) =~= rows);
        },
        Table::Compound { tables, .. } => {
            lemma_sub_tables_flatten(tables@);
            let rows = sub_table_lines(tables@);
            assert(d.skip(d.len() - rows.len()) =~= rows);
        },
    }
}

/// `n` levels of two-space indentation.
pub open spec fn indent_of(n: nat) -> Seq<char>
    decreases n,
{
    if n == 0 {
        Seq::empty()
    } else {
        indent_of((n - 1) as nat) + "  "@
    }
}

/// The line that shows one roll: the table's name, the value rolled (for
/// a simple table) and the resulting text (when there is one).
pub open spec fn roll_line(r: RollResult, depth: nat) -> Seq<char> {
    indent_of(depth) + r.table_name@ + match (r.roll, r.text) {
        (Some(v), Some(t)) => " (rolled "@ + decimal(v as int) + "): "@ + t@,
        (Some(v), None) => " (rolled "@ + decimal(v as int) + ")"@,
        (None, Some(t)) => ": "@ + t@,
        (None, None) => Seq::empty(),
    } + "\n"@
}

/// A roll and, below it and one level further in, the rolls it led to.
pub open spec fn roll_lines(r: RollResult, depth: nat) -> Seq<char>
    decreases r,
{
    roll_line(r, depth) + roll_children_lines(r.children@, depth + 1, r.children@.len())
}

/// The lines of the first `n` of `children`, at `depth`.
pub open spec fn roll_children_lines(children: Seq<RollResult>, depth: nat, n: nat) -> Seq<char>
    decreases children, n,
{
    if n == 0 || n > children.len() {
        Seq::empty()
    } else {
        proof {
            assert(decreases_to!(children => children[n - 1]));
        }
        roll_children_lines(children, depth, (n - 1) as nat) + roll_lines(children[n - 1], depth)
    }
}

fn push_roll_lines(out: &mut String, r: &RollResult, pad: &String, Ghost(depth): Ghost<nat>)
    requires
        pad@ == indent_of(depth),
    ensures
        final(out)@ == old(out)@ + roll_lines(*r, depth),
    decreases r,
{
    let ghost start = out@;
    push_str(out, pad.as_str());
    push_str(out, r.table_name.as_str());
    match (r.roll, &r.text) {
        (Some(v), Some(t)) => {
            push_str(out, " (rolled ");
            push_i64(out, v as i64);
            push_str(out, "): ");
            push_str(out, t.as_str());
        },
        (Some(v), None) => {
            push_str(out, " (rolled ");
            push_i64(out, v as i64);
            push_str(out, ")");
        },
        (None, Some(t)) => {
            push_str(out, ": ");
            push_str(out, t.as_str());
        },
        (None, None) => {},
    }
    push_str(out, "\n");
    assert(out@ =~= start + roll_line(*r, depth));
    let ghost mid = out@;
    let mut child_pad = pad.clone();
    push_str(&mut child_pad, "  ");
    assert(child_pad@ =~= indent_of(depth + 1));
    let mut i: usize = 0;
    while i < r.children.len()
        invariant
            i <= r.children@.len(),
            child_pad@ == indent_of(depth + 1),
            out@ == mid + roll_children_lines(r.children@, depth + 1, i as nat),
        decreases r.children@.len() - i,
    {
        assert(decreases_to!(r => r.children));
        assert(decreases_to!(r.children => r.children@));
        assert(decreases_to!(r.children@ => r.children@[i as int]));
        push_roll_lines(out, &r.children[i], &child_pad, Ghost(depth + 1));
        i = i + 1;
        assert(out@ =~= mid + roll_children_lines(r.children@, depth + 1, i as nat));
    }
    assert(out@ =~= start + roll_lines(*r, depth));
}

/// The number of line breaks in `s`.
pub open spec fn line_count(s: Seq<char>) -> nat
    decreases s.len(),
{
    if s.len() == 0 {
        0
    } else {
        line_count(s.drop_last()) + if s.last() == '\n' {
            1nat
        } else {
            0nat
        }
    }
}

/// `s` holds no line break.
pub open spec fn one_line(s: Seq<char>) -> bool {
    forall|i: int| 0 <= i < s.len() ==> s[i] != '\n'
}

/// The number of rolls in a roll tree: the roll itself and every roll
/// below it.
pub open spec fn roll_count(r: RollResult) -> nat
    decreases r,
{
    1 + children_roll_count(r.children@, r.children@.len())
}

/// The number of rolls in the trees of the first `n` of `children`.
pub open spec fn children_roll_count(children: Seq<RollResult>, n: nat) -> nat
    decreases children, n,
{
    if n == 0 || n > children.len() {
        0
    } else {
        proof {
            assert(decreases_to!(children => children[n - 1]));
        }
        children_roll_count(children, (n - 1) as nat) + roll_count(children[n - 1])
    }
}

/// No table name or text anywhere in the roll tree holds a line break.
pub open spec fn names_on_one_line(r: RollResult) -> bool
    decreases r,
{
    &&& one_line(r.table_name@)
    &&& (r.text matches Some(t) ==> one_line(t@))
    &&& children_on_one_line(r.children@, r.children@.len())
}

/// `names_on_one_line` of each of the first `n` of `children`.
pub open spec fn children_on_one_line(children: Seq<RollResult>, n: nat) -> bool
    decreases children, n,
{
    if n == 0 || n > children.len() {
        true
    } else {
        proof {
            assert(decreases_to!(children => children[n - 1]));
        }
        children_on_one_line(children, (n - 1) as nat) && names_on_one_line(children[n - 1])
    }
}

proof fn lemma_line_count_add(a: Seq<char>, b: Seq<char>)
    ensures
        line_count(a + b) == line_count(a) + line_count(b),
    decreases b.len(),
{
    if b.len() > 0 {
        assert((a + b).drop_last() =~= a + b.drop_last());
        lemma_line_count_add(a, b.drop_last());
    } else {
        assert(a + b =~= a);
    }
}

proof fn lemma_one_line_count(s: Seq<char>)
    requires
        one_line(s),
    ensures
        line_count(s) == 0,
    decreases s.len(),
{
    if s.len() > 0 {
        lemma_one_line_count(s.drop_last());
    }
}

proof fn lemma_digits_one_line(n: nat)
    ensures
        one_line(nat_digits(n)),
    decreases n,
{
    if n >= 10 {
        lemma_digits_one_line(n / 10);
    }
}

proof fn lemma_indent_one_line(n: nat)
    ensures
        one_line(indent_of(n)),
    decreases n,
{
    reveal_strlit("  ");
    if n > 0 {
        lemma_indent_one_line((n - 1) as nat);
    }
}

/// The line of a roll is one line: it ends with the only line break in it.
proof fn lemma_roll_line_count(r: RollResult, depth: nat)
    requires
        one_line(r.table_name@),
        r.text matches Some(t) ==> one_line(t@),
    ensures
        line_count(roll_line(r, depth)) == 1,
{
    reveal_strlit(" (rolled ");
    reveal_strlit("): ");
    reveal_strlit(")");
    reveal_strlit(": ");
    reveal_strlit("\n");
    lemma_indent_one_line(depth);
    let middle = match (r.roll, r.text) {
        (Some(v), Some(t)) => " (rolled "@ + decimal(v as int) + "): "@ + t@,
        (Some(v), None) => " (rolled "@ + decimal(v as int) + ")"@,
        (None, Some(t)) => ": "@ + t@,
        (None, None) => Seq::empty(),
    };
    if let Some(v) = r.roll {
        let w = v as int;
        if w < 0 {
            lemma_digits_one_line((-w) as nat);
        } else {
            lemma_digits_one_line(w as nat);
        }
        assert(one_line(decimal(w)));
    }
    let body = indent_of(depth) + r.table_name@ + middle;
    assert(one_line(body));
    lemma_one_line_count(body);
    assert(roll_line(r, depth) == body + "\n"@);
    lemma_line_count_add(body, "\n"@);
    assert("\n"@.drop_last() =~= Seq::<char>::empty());
    assert(line_count("\n"@.drop_last()) == 0);
    assert(line_count("\n"@) == 1);
}

/// A law of rendering a roll tree: it takes one line for each roll in the
/// tree, so that no roll, and no roll below it, goes missing.
pub proof fn lemma_roll_lines_count(r: RollResult, depth: nat)
    requires
        names_on_one_line(r),
    ensures
        line_count(roll_lines(r, depth)) == roll_count(r),
    decreases r, 1nat,
{
    lemma_roll_line_count(r, depth);
    lemma_children_lines_count(r.children@, depth + 1, r.children@.len());
    lemma_line_count_add(roll_line(r, depth), roll_children_lines(r.children@, depth + 1, r.children@.len()));
}

proof fn lemma_children_lines_count(children: Seq<RollResult>, depth: nat, n: nat)
    requires
        children_on_one_line(children, n),
    ensures
        line_count(roll_children_lines(children, depth, n)) == children_roll_count(children, n),
    decreases children, 0nat, n,
{
    if n > 0 && n <= children.len() {
        assert(decreases_to!(children => children[n - 1]));
        lemma_children_lines_count(children, depth, (n - 1) as nat);
        lemma_roll_lines_count(children[n - 1], depth);
        lemma_line_count_add(
            roll_children_lines(children, depth, (n - 1) as nat),
            roll_lines(children[n - 1], depth),
        );
    }
}

proof fn lemma_children_lines_flatten(children: Seq<RollResult>, depth: nat, n: nat)
    requires
        n <= children.len(),
    ensures
        roll_children_lines(children, depth, n) == Seq::new(n, |i: int| roll_lines(children[i], depth)).flatten(),
    decreases n,
{
    let all = Seq::new(n, |i: int| roll_lines(children[i], depth));
    if n == 0 {
        assert(all =~= Seq::<Seq<char>>::empty());
    } else {
        let fewer = Seq::new((n - 1) as nat, |i: int| roll_lines(children[i], depth));
        lemma_children_lines_flatten(children, depth, (n - 1) as nat);
        assert(all =~= fewer.push(roll_lines(children[n - 1], depth)));
        fewer.lemma_flatten_push(roll_lines(children[n - 1], depth));
    }
}

/// A law of rendering a roll tree: a roll is shown by its own line, which
/// starts with the indentation for its depth and the table's name, and
/// below it, in order, the full rendering of every one of its children,
/// each one level (two spaces) further in.
pub proof fn lemma_roll_lines_shape(r: RollResult, depth: nat)
    ensures
        roll_lines(r, depth) == roll_line(r, depth) + Seq::new(
            r.children@.len(),
            |i: int| roll_lines(r.children@[i], depth + 1),
        ).flatten(),
        roll_line(r, depth).take((indent_of(depth).len() + r.table_name@.len()) as int) == indent_of(depth)
            + r.table_name@,
        roll_line(r, depth).last() == '\n',
        indent_of(depth + 1) == indent_of(depth) + "  "@,
{
    lemma_children_lines_flatten(r.children@, depth + 1, r.children@.len());
    reveal_strlit("\n");
    assert(roll_line(r, depth).take((indent_of(depth).len() + r.table_name@.len()) as int) =~= indent_of(depth)
        + r.table_name@);
}

/// A roll result as lines of text: each roll on its own line, the rolls
/// it led to below it and indented by two more spaces.
pub fn format_roll_result(result: &RollResult) -> (out: String)
    ensures
        out@ == roll_lines(*result, 0),
{
    let mut out = String::new();
    let pad = String::new();
    push_roll_lines(&mut out, result, &pad, Ghost(0));
    assert(out@ =~= roll_lines(*result, 0));
    out
}

/// The tags of a search hit, in brackets, or nothing when it has none.
pub open spec fn tags_suffix(tags: Seq<String>) -> Seq<char> {
    if tags.len() == 0 {
        Seq::empty()
    } else {
        " ["@ + joined(string_views(tags), ", "@) + "]"@
    }
}

/// One line of a search listing: `  fqid — Name [tag, ...]`.
pub open spec fn search_line(fqid: Seq<char>, t: Table) -> Seq<char> {
    "  "@ + fqid + " — "@ + t.spec_name() + tags_suffix(t.spec_tags()) + "\n"@
}

/// The lines of a search listing, one per hit, in order.
pub open spec fn search_lines(found: Seq<(Seq<char>, Table)>) -> Seq<char>
    decreases found.len(),
{
    if found.len() == 0 {
        Seq::empty()
    } else {
        search_lines(found.drop_last()) + search_line(found.last().0, found.last().1)
    }
}

/// A search listing: its lines, or a note that nothing was found.
pub open spec fn search_listing(found: Seq<(Seq<char>, Table)>) -> Seq<char> {
    if found.len() == 0 {
        "No tables found.\n"@
    } else {
        search_lines(found)
    }
}

/// A law of joining: parts joined with a separator are the first part
/// followed, in order, by the separator and each later part; no part is
/// left out and no separator is added at either end.
pub proof fn lemma_joined_parts(parts: Seq<Seq<char>>, sep: Seq<char>)
    requires
        parts.len() > 0,
    ensures
        joined(parts, sep) == parts[0] + Seq::new((parts.len() - 1) as nat, |i: int| sep + parts[i + 1]).flatten(),
    decreases parts.len(),
{
    let rest = Seq::new((parts.len() - 1) as nat, |i: int| sep + parts[i + 1]);
    if parts.len() == 1 {
        assert(rest =~= Seq::<Seq<char>>::empty());
        assert(parts[0] + rest.flatten() =~= parts[0]);
    } else {
        let init = parts.drop_last();
        lemma_joined_parts(init, sep);
        let fewer = Seq::new((init.len() - 1) as nat, |i: int| sep + init[i + 1]);
        assert(rest =~= fewer.push(sep + parts.last()));
        fewer.lemma_flatten_push(sep + parts.last());
        assert(init[0] == parts[0]);
        assert(joined(parts, sep) == joined(init, sep) + sep + parts.last());
        assert(parts[0] + rest.flatten() =~= parts[0] + fewer.flatten() + sep + parts.last());
    }
}

/// A law of search listings: a listing with hits has one line for each
/// hit, every one of them and in order.
pub proof fn lemma_search_listing_lines(found: Seq<(Seq<char>, Table)>)
    requires
        found.len() > 0,
    ensures
        search_listing(found) == Seq::new(found.len(), |i: int| search_line(found[i].0, found[i].1)).flatten(),
{
    lemma_search_lines_flatten(found);
}

proof fn lemma_search_lines_flatten(found: Seq<(Seq<char>, Table)>)
    ensures
        search_lines(found) == Seq::new(found.len(), |i: int| search_line(found[i].0, found[i].1)).flatten(),
    decreases found.len(),
{
    let all = Seq::new(found.len(), |i: int| search_line(found[i].0, found[i].1));
    if found.len() == 0 {
        assert(all =~= Seq::<Seq<char>>::empty());
    } else {
        let init = found.drop_last();
        let fewer = Seq::new(init.len(), |i: int| search_line(init[i].0, init[i].1));
        lemma_search_lines_flatten(init);
        assert(all =~= fewer.push(search_line(found.last().0, found.last().1)));
        fewer.lemma_flatten_push(search_line(found.last().0, found.last().1));
    }
}

fn push_joined_slice(out: &mut String, parts: &[String], sep: &str)
    ensures
        final(out)@ == old(out)@ + joined(string_views(parts@), sep@),
{
    let mut i: usize = 0;
    while i < parts.len()
        invariant
            i <= parts@.len(),
            out@ == old(out)@ + joined(string_views(parts@).take(i as int), sep@),
        decreases parts@.len() - i,
    {
        let ghost t = string_views(parts@).take(i + 1);
        assert(t.drop_last() =~= string_views(parts@).take(i as int));
        assert(t.last() == parts@[i as int]@);
        if i > 0 {
            push_str(out, sep);
        }
        push_str(out, parts[i].as_str());
        proof {
            if i == 0 {
                assert(t.len() == 1);
            }
        }
        i = i + 1;
    }
    assert(string_views(parts@).take(parts@.len() as int) =~= string_views(parts@));
}

/// The listing of a search's hits: each fully qualified id with the
/// table's name and, when it has any, its tags; or `No tables found.`.
pub fn format_search_results(found: &Vec<(&str, &Table)>) -> (out: String)
    ensures
        out@ == search_listing(result_view(found@)),
{
    let ghost fv = result_view(found@);
    let mut out = String::new();
    if found.len() == 0 {
        push_str(&mut out, "No tables found.\n");
        return out;
    }
    let mut i: usize = 0;
    while i < found.len()
        invariant
            i <= found@.len(),
            fv == result_view(found@),
            out@ == search_lines(fv.take(i as int)),
        decreases found@.len() - i,
    {
        let (fqid, table) = found[i];
        let ghost before = out@;
        push_str(&mut out, "  ");
        push_str(&mut out, fqid);
        push_str(&mut out, " — ");
        push_str(&mut out, table.name());
        let tags = table.tags();
        if tags.len() > 0 {
            push_str(&mut out, " [");
            push_joined_slice(&mut out, tags, ", ");
            push_str(&mut out, "]");
        }
        push_str(&mut out, "\n");
        assert(fv.take(i + 1).drop_last() =~= fv.take(i as int));
        assert(out@ =~= before + search_line(fv[i as int].0, fv[i as int].1));
        i = i + 1;
    }
    assert(fv.take(found@.len() as int) =~= fv);
    out
}

/// The listing of all tags, one per line, or `No tags found.`.
pub fn format_tag_list(tags: &Vec<&str>) -> (out: String)
    ensures
        out@ == if tags@.len() == 0 {
            "No tags found.\n"@
        } else {
            joined(tags@.map_values(|t: &str| t@), "\n"@) + "\n"@
        },
{
    let ghost parts = tags@.map_values(|t: &str| t@);
    let mut out = String::new();
    if tags.len() == 0 {
        push_str(&mut out, "No tags found.\n");
        return out;
    }
    let mut i: usize = 0;
    while i < tags.len()
        invariant
            i <= tags@.len(),
            parts == tags@.map_values(|t: &str| t@),
            out@ == joined(parts.take(i as int), "\n"@),
        decreases tags@.len() - i,
    {
        let ghost t = parts.take(i + 1);
        assert(t.drop_last() =~= parts.take(i as int));
        if i > 0 {
            push_str(&mut out, "\n");
        }
        push_str(&mut out, tags[i]);
        proof {
            if i == 0 {
                assert(t.len() == 1);
            }
        }
        i = i + 1;
    }
    assert(parts.take(tags@.len() as int) =~= parts);
    push_str(&mut out, "\n");
    out
}

} // verus!
