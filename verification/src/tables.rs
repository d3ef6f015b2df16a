//! The table of embeddings: its name, and the statements that are put to the database.

use vstd::prelude::*;

use crate::settings::EmbedMode;
use crate::text::{
    ascii_lower, ascii_lower_text, chars_of, is_ascii_alphanumeric, is_ascii_char, lowercase,
    unicode_alphanumeric, unicode_lowercase,
};

verus! {

pub open spec fn mode_text(mode: EmbedMode) -> Seq<char> {
    match mode {
        EmbedMode::OpenClip => "openclip"@,
        EmbedMode::LlamaCpp => "llamacpp"@,
        EmbedMode::Ollama => "ollama"@,
    }
}

/// A text with an underscore for each character that is neither letter nor digit.
pub open spec fn sanitized(model: Seq<char>) -> Seq<char> {
    Seq::new(
        model.len(),
        |i: int|
            if unicode_alphanumeric(model[i]) {
                model[i]
            } else {
                '_'
            },
    )
}

/// The table for the embeddings that a model gives in a mode.
pub open spec fn table_name(mode: EmbedMode, model: Seq<char>) -> Seq<char> {
    "results_"@ + mode_text(mode) + "_"@ + unicode_lowercase(sanitized(model))
}

/// An ASCII character as it stands in a table name: a small letter, a digit, or an
/// underscore for all else.
pub open spec fn folded(c: char) -> char {
    ascii_lower(
        if is_ascii_alphanumeric(c) {
            c
        } else {
            '_'
        },
    )
}

/// The table for a model whose name is ASCII.
pub open spec fn ascii_table_name(mode: EmbedMode, model: Seq<char>) -> Seq<char> {
    "results_"@ + mode_text(mode) + "_"@ + Seq::new(model.len(), |i: int| folded(model[i]))
}

/// Whether a text is made of ASCII characters.
pub open spec fn is_ascii_text(s: Seq<char>) -> bool {
    forall|i: int| 0 <= i < s.len() ==> is_ascii_char(#[trigger] s[i])
}

/// Models whose names are ASCII share a table in a mode exactly if the names differ in
/// letter size and in signs other than letters and digits alone.
pub proof fn lemma_ascii_models_share_a_table(mode: EmbedMode, a: Seq<char>, b: Seq<char>)
    requires
        is_ascii_text(a),
        is_ascii_text(b),
    ensures
        ascii_table_name(mode, a) == ascii_table_name(mode, b) <==> {
            &&& a.len() == b.len()
            &&& forall|i: int| 0 <= i < a.len() ==> folded(#[trigger] a[i]) == folded(b[i])
        },
{
    let front = "results_"@ + mode_text(mode) + "_"@;
    let x = ascii_table_name(mode, a);
    let y = ascii_table_name(mode, b);
    if x == y {
        assert(x.len() == front.len() + a.len() && y.len() == front.len() + b.len());
        assert forall|i: int| 0 <= i < a.len() implies folded(#[trigger] a[i]) == folded(b[i]) by {
            assert(x[front.len() + i] == folded(a[i]));
            assert(y[front.len() + i] == folded(b[i]));
        }
    }
    if a.len() == b.len() && forall|i: int|
        0 <= i < a.len() ==> folded(#[trigger] a[i]) == folded(b[i]) {
        assert(x =~= y);
    }
}

/// The characters that need no quoting in a statement.
pub open spec fn is_identifier_char(c: char) -> bool {
    ('0' <= c && c <= '9') || ('a' <= c && c <= 'z') || c == '_'
}

/// A text with an underscore for each character that is not kept.
pub open spec fn masked(model: Seq<char>, keep: Seq<bool>) -> Seq<char> {
    Seq::new(
        model.len(),
        |i: int|
            if keep[i] {
                model[i]
            } else {
                '_'
            },
    )
}

/// A text with an underscore for each character that is not kept.
pub fn mask(model: &str, keep: &Vec<bool>) -> (clean: String)
    requires
        keep@.len() == model@.len(),
    ensures
        clean@ == masked(model@, keep@),
        clean@.len() == model@.len(),
        forall|i: int|
            0 <= i < model@.len() ==> #[trigger] clean@[i] == (if keep@[i] {
                model@[i]
            } else {
                '_'
            }),
{
    let chars = chars_of(model);
    let mut clean = String::new();
    let mut i: usize = 0;
    while i < chars.len()
        invariant
            i <= chars@.len(),
            chars@ == model@,
            keep@.len() == model@.len(),
            clean@ == masked(model@, keep@).take(i as int),
        decreases chars@.len() - i,
    {
        clean.push(
            if keep[i] {
                chars[i]
            } else {
                '_'
            },
        );
        assert(clean@ =~= masked(model@, keep@).take(i + 1));
        i = i + 1;
    }
    assert(clean@ =~= masked(model@, keep@));
    clean
}

/// The name of the table for a mode and the clean name of a model, in small letters.
pub fn assemble_table_name(mode: EmbedMode, model: &str) -> (name: String)
    ensures
        name@ == "results_"@ + mode_text(mode) + "_"@ + model@,
        mode == EmbedMode::OpenClip ==> name@ == "results_"@ + "openclip"@ + "_"@ + model@,
        mode == EmbedMode::LlamaCpp ==> name@ == "results_"@ + "llamacpp"@ + "_"@ + model@,
        mode == EmbedMode::Ollama ==> name@ == "results_"@ + "ollama"@ + "_"@ + model@,
{
    let mut name = String::new();
    name.push_str("results_");
    name.push_str(
        match mode {
            EmbedMode::OpenClip => "openclip",
            EmbedMode::LlamaCpp => "llamacpp",
            EmbedMode::Ollama => "ollama",
        },
    );
    name.push_str("_");
    name.push_str(model);
    assert(name@ =~= "results_"@ + mode_text(mode) + "_"@ + model@);
    name
}

/// The name of the table for the embeddings that a model gives in a mode. For a model
/// whose name is ASCII, the name is a plain identifier.
pub fn get_table_name(mode: EmbedMode, model: &str) -> (name: String)
    ensures
        name@ == table_name(mode, model@),
        is_ascii_text(model@) ==> name@ == ascii_table_name(mode, model@),
        name@ == "results_"@ + mode_text(mode) + "_"@ + unicode_lowercase(
            Seq::new(
                model@.len(),
                |i: int|
                    if unicode_alphanumeric(model@[i]) {
                        model@[i]
                    } else {
                        '_'
                    },
            ),
        ),
        is_ascii_text(model@) ==> forall|i: int|
            0 <= i < name@.len() ==> is_identifier_char(#[trigger] name@[i]),
{
    let mut keep: Vec<bool> = Vec::new();
    for c in walk: model.chars()
        invariant
            walk.seq() == model@,
            keep@.len() == walk.index(),
            forall|i: int|
                0 <= i < keep@.len() ==> (#[trigger] keep@[i]) == unicode_alphanumeric(model@[i]) && (
                is_ascii_char(model@[i]) ==> keep@[i] == is_ascii_alphanumeric(model@[i])),
    {
        keep.push(c.is_alphanumeric());
    }
    let clean = mask(model, &keep);
    assert(clean@ =~= sanitized(model@));
    let lower = lowercase(clean.as_str());
    let name = assemble_table_name(mode, lower.as_str());
    proof {
        if is_ascii_text(model@) {
            assert forall|i: int| 0 <= i < clean@.len() implies is_ascii_char(#[trigger] clean@[i])
                && (clean@[i] == '_' || is_ascii_alphanumeric(clean@[i])) by {
                assert(is_ascii_char(model@[i]));
                assert(keep@[i] == is_ascii_alphanumeric(model@[i]));
            }
            assert(lower@ == ascii_lower_text(clean@));
            assert(lower@ =~= Seq::new(model@.len(), |i: int| folded(model@[i])));
            let front = "results_"@ + mode_text(mode) + "_"@;
            lemma_front(mode);
            assert forall|i: int| 0 <= i < name@.len() implies is_identifier_char(
                #[trigger] name@[i],
            ) by {
                if i < front.len() {
                    assert(name@[i] == front[i]);
                } else {
                    let j = i - front.len();
                    assert(is_ascii_char(clean@[j]));
                    assert(name@[i] == ascii_lower(clean@[j]));
                }
            }
        }
    }
    name
}

/// What a table name starts with.
proof fn lemma_front(mode: EmbedMode)
    ensures
        forall|i: int|
            #![trigger ("results_"@ + mode_text(mode) + "_"@)[i]]
            0 <= i < ("results_"@ + mode_text(mode) + "_"@).len() ==> is_identifier_char(
                ("results_"@ + mode_text(mode) + "_"@)[i],
            ),
{
    reveal_strlit("results_");
    reveal_strlit("openclip");
    reveal_strlit("llamacpp");
    reveal_strlit("ollama");
    reveal_strlit("_");
}

/// Embeddings of different modes never share a table.
pub proof fn lemma_modes_have_their_own_tables(
    a: EmbedMode,
    b: EmbedMode,
    model_a: Seq<char>,
    model_b: Seq<char>,
)
    requires
        a != b,
    ensures
        table_name(a, model_a) != table_name(b, model_b),
{
    reveal_strlit("results_");
    reveal_strlit("openclip");
    reveal_strlit("llamacpp");
    reveal_strlit("ollama");
    reveal_strlit("_");
    let x = table_name(a, model_a);
    let y = table_name(b, model_b);
    assert(x[8] == mode_text(a)[0] && x[9] == mode_text(a)[1]);
    assert(y[8] == mode_text(b)[0] && y[9] == mode_text(b)[1]);
}

/// The statement that makes the table where there is none yet.
pub open spec fn create_table_text(table: Seq<char>) -> Seq<char> {
    "\n        CREATE TABLE IF NOT EXISTS "@ + table
        + " (\n            id INTEGER PRIMARY KEY,\n            filename TEXT UNIQUE,\n            embedding BLOB\n        );\n    "@
}

pub fn create_table_statement(table: &str) -> (s: String)
    ensures
        s@ == create_table_text(table@),
        s@ == "\n        CREATE TABLE IF NOT EXISTS "@ + table@
            + " (\n            id INTEGER PRIMARY KEY,\n            filename TEXT UNIQUE,\n            embedding BLOB\n        );\n    "@,
{
    let mut s = String::new();
    s.push_str("\n        CREATE TABLE IF NOT EXISTS ");
    s.push_str(table);
    s.push_str(
        " (\n            id INTEGER PRIMARY KEY,\n            filename TEXT UNIQUE,\n            embedding BLOB\n        );\n    ",
    );
    assert(s@ =~= create_table_text(table@));
    s
}

/// The statement that reads all rows.
pub fn select_all_statement(table: &str) -> (s: String)
    ensures
        s@ == "SELECT filename, embedding FROM "@ + table@,
{
    let mut s = String::new();
    s.push_str("SELECT filename, embedding FROM ");
    s.push_str(table);
    assert(s@ =~= "SELECT filename, embedding FROM "@ + table@);
    s
}

/// The statement that adds a row, unless there is one of that name.
pub fn insert_statement(table: &str) -> (s: String)
    ensures
        s@ == "INSERT OR IGNORE INTO "@ + table@ + " (filename, embedding) VALUES (?, ?)"@,
{
    let mut s = String::new();
    s.push_str("INSERT OR IGNORE INTO ");
    s.push_str(table);
    s.push_str(" (filename, embedding) VALUES (?, ?)");
    assert(s@ =~= "INSERT OR IGNORE INTO "@ + table@ + " (filename, embedding) VALUES (?, ?)"@);
    s
}

/// A text with each single quote doubled.
pub open spec fn doubled(s: Seq<char>) -> Seq<char>
    decreases s.len(),
{
    if s.len() == 0 {
        Seq::empty()
    } else if s.last() == '\'' {
        doubled(s.drop_last()).push('\'').push('\'')
    } else {
        doubled(s.drop_last()).push(s.last())
    }
}

/// A text as a literal of the query language.
pub open spec fn literal(s: Seq<char>) -> Seq<char> {
    seq!['\''] + doubled(s) + seq!['\'']
}

/// The literals of the names, a comma and a space between them.
pub open spec fn literal_list(names: Seq<Seq<char>>) -> Seq<char>
    decreases names.len(),
{
    if names.len() == 0 {
        Seq::empty()
    } else if names.len() == 1 {
        literal(names[0])
    } else {
        literal_list(names.drop_last()) + ", "@ + literal(names.last())
    }
}

/// The statement that reads which of the names are in the table.
pub open spec fn existing_text(table: Seq<char>, names: Seq<Seq<char>>) -> Seq<char> {
    "SELECT filename FROM "@ + table + " WHERE filename IN ("@ + literal_list(names) + ")"@
}

/// Puts a text as a literal behind another.
fn push_literal(s: &mut String, name: &str)
    ensures
        final(s)@ == old(s)@ + literal(name@),
{
    let ghost before = s@;
    s.push('\'');
    for c in walk: name.chars()
        invariant
            walk.seq() == name@,
            s@ == before + seq!['\''] + doubled(name@.take(walk.index() as int)),
    {
        let ghost i = walk.index() as int;
        assert(name@.take(i + 1).drop_last() =~= name@.take(i));
        if c == '\'' {
            s.push('\'');
        }
        s.push(c);
        assert(s@ =~= before + seq!['\''] + doubled(name@.take(i + 1)));
    }
    assert(name@.take(name@.len() as int) =~= name@);
    s.push('\'');
    assert(s@ =~= before + literal(name@));
}

/// The statement that reads which of the names are in the table.
pub fn existing_statement(table: &str, names: &Vec<String>) -> (s: String)
    ensures
        s@ == existing_text(table@, names@.map_values(|n: String| n@)),
        s@ == "SELECT filename FROM "@ + table@ + " WHERE filename IN ("@ + literal_list(
            names@.map_values(|n: String| n@),
        ) + ")"@,
{
    let ghost all = names@.map_values(|n: String| n@);
    let mut list = String::new();
    let mut i: usize = 0;
    while i < names.len()
        invariant
            i <= names@.len(),
            all == names@.map_values(|n: String| n@),
            list@ == literal_list(all.take(i as int)),
        decreases names@.len() - i,
    {
        assert(all.take(i + 1).drop_last() =~= all.take(i as int));
        if i > 0 {
            list.push_str(", ");
        }
        push_literal(&mut list, names[i].as_str());
        assert(list@ =~= literal_list(all.take(i + 1)));
        i = i + 1;
    }
    assert(all.take(names@.len() as int) =~= all);
    let mut s = String::new();
    s.push_str("SELECT filename FROM ");
    s.push_str(table);
    s.push_str(" WHERE filename IN (");
    s.push_str(list.as_str());
    s.push_str(")");
    assert(s@ =~= existing_text(table@, all));
    s
}

/// Reads the rest of a literal whose opening quote stands before `at`: the text, and
/// where it ends. Two quotes in a row stand for one; a single one closes.
pub open spec fn read_literal(t: Seq<char>, at: int) -> Option<(Seq<char>, int)>
    decreases t.len() - at,
{
    if at < 0 || at >= t.len() {
        None
    } else if t[at] != '\'' {
        match read_literal(t, at + 1) {
            Some((s, end)) => Some((seq![t[at]] + s, end)),
            None => None,
        }
    } else if at + 1 < t.len() && t[at + 1] == '\'' {
        match read_literal(t, at + 2) {
            Some((s, end)) => Some((seq!['\''] + s, end)),
            None => None,
        }
    } else {
        Some((Seq::empty(), at + 1))
    }
}

/// A text with its first character apart.
proof fn lemma_doubled_from_front(s: Seq<char>)
    requires
        s.len() > 0,
    ensures
        doubled(s) == (if s[0] == '\'' {
            seq!['\'', '\'']
        } else {
            seq![s[0]]
        }) + doubled(s.drop_first()),
    decreases s.len(),
{
    let front = if s[0] == '\'' {
        seq!['\'', '\'']
    } else {
        seq![s[0]]
    };
    if s.len() == 1 {
        assert(s.drop_last() =~= Seq::empty());
        assert(s.drop_first() =~= Seq::empty());
        assert(doubled(s) =~= front + doubled(s.drop_first()));
    } else {
        lemma_doubled_from_front(s.drop_last());
        assert(s.drop_last().drop_first() =~= s.drop_first().drop_last());
        assert(doubled(s) =~= front + doubled(s.drop_first()));
    }
}

/// A name goes through the query unharmed: wherever its literal stands, unless a quote
/// follows, reading the literal gives the name back and ends where the literal ends.
pub proof fn lemma_literal_reads_back(before: Seq<char>, name: Seq<char>, behind: Seq<char>)
    requires
        behind.len() == 0 || behind[0] != '\'',
    ensures
        read_literal(before + literal(name) + behind, before.len() as int + 1) == Some(
            (name, (before.len() + literal(name).len()) as int),
        ),
{
    lemma_body_reads_back(before + seq!['\''], name, behind);
    assert(before + seq!['\''] + doubled(name) + seq!['\''] + behind =~= before + literal(name)
        + behind);
}

/// Where name `k` stands in the list: its literal, with what is before and behind it.
proof fn lemma_list_holds_name(names: Seq<Seq<char>>, k: int) -> (r: (Seq<char>, Seq<char>))
    requires
        0 <= k < names.len(),
    ensures
        literal_list(names) == r.0 + literal(names[k]) + r.1,
        r.1.len() == 0 || r.1[0] != '\'',
    decreases names.len(),
{
    reveal_strlit(", ");
    let none = Seq::<char>::empty();
    if names.len() == 1 {
        assert(literal_list(names) =~= none + literal(names[k]) + none);
        (none, none)
    } else if k == names.len() - 1 {
        let before = literal_list(names.drop_last()) + ", "@;
        assert(literal_list(names) =~= before + literal(names[k]) + none);
        (before, none)
    } else {
        let (before, behind) = lemma_list_holds_name(names.drop_last(), k);
        let more = behind + ", "@ + literal(names.last());
        assert(literal_list(names) =~= before + literal(names[k]) + more);
        (before, more)
    }
}

/// The query asks for each of the names: somewhere in it stands a literal that reads back
/// as that name, whatever characters the names are made of.
pub proof fn lemma_query_asks_for_each_name(table: Seq<char>, names: Seq<Seq<char>>, k: int)
    requires
        0 <= k < names.len(),
    ensures
        exists|at: int|
            0 < at && existing_text(table, names)[at - 1] == '\'' && (#[trigger] read_literal(
                existing_text(table, names),
                at,
            )) is Some && (read_literal(existing_text(table, names), at)->0).0 == names[k],
{
    reveal_strlit(")");
    let (near, far) = lemma_list_holds_name(names, k);
    let before = "SELECT filename FROM "@ + table + " WHERE filename IN ("@ + near;
    let behind = far + ")"@;
    let text = existing_text(table, names);
    assert(text =~= before + literal(names[k]) + behind);
    lemma_literal_reads_back(before, names[k], behind);
    let at = before.len() as int + 1;
    assert(text[at - 1] == '\'');
    assert(read_literal(text, at) is Some);
}

proof fn lemma_body_reads_back(before: Seq<char>, name: Seq<char>, behind: Seq<char>)
    requires
        behind.len() == 0 || behind[0] != '\'',
    ensures
        read_literal(
            before + doubled(name) + seq!['\''] + behind,
            before.len() as int,
        ) == Some((name, (before.len() + doubled(name).len() + 1) as int)),
    decreases name.len(),
{
    let t = before + doubled(name) + seq!['\''] + behind;
    if name.len() == 0 {
        assert(t[before.len() as int] == '\'');
        if behind.len() > 0 {
            assert(t[before.len() as int + 1] == behind[0]);
        }
        assert(name =~= Seq::empty());
    } else {
        lemma_doubled_from_front(name);
        let front = if name[0] == '\'' {
            seq!['\'', '\'']
        } else {
            seq![name[0]]
        };
        let rest = name.drop_first();
        lemma_body_reads_back(before + front, rest, behind);
        assert(before + front + doubled(rest) + seq!['\''] + behind =~= t);
        assert(t[before.len() as int] == name[0]);
        if name[0] == '\'' {
            assert(t[before.len() as int + 1] == '\'');
        }
        assert(seq![name[0]] + rest =~= name);
    }
}

/// What becomes of each ASCII character of a model's name, and where it stands in the name
/// of the table.
pub proof fn lemma_ascii_name_character_by_character(mode: EmbedMode, model: Seq<char>, i: int)
    requires
        0 <= i < model.len(),
        is_ascii_text(model),
    ensures
        ({
            let front = 9 + mode_text(mode).len();
            let c = model[i] as int;
            let t = ascii_table_name(mode, model)[front + i] as int;
            &&& ascii_table_name(mode, model).len() == front + model.len()
            &&& (48 <= c && c <= 57) || (97 <= c && c <= 122) ==> t == c
            &&& 65 <= c && c <= 90 ==> t == c + 32
            &&& c < 48 || (57 < c && c < 65) || (90 < c && c < 97) || 122 < c ==> t == '_' as int
        }),
{
    reveal_strlit("results_");
    reveal_strlit("_");
    assert(is_ascii_char(model[i]));
}

/// The texts that the modes are known by.
pub proof fn lemma_mode_texts()
    ensures
        mode_text(EmbedMode::OpenClip) == "openclip"@,
        mode_text(EmbedMode::LlamaCpp) == "llamacpp"@,
        mode_text(EmbedMode::Ollama) == "ollama"@,
{
}

/// Only single quotes are doubled, each by itself: a text without any stays as it is.
pub proof fn lemma_only_quotes_are_doubled(a: Seq<char>, b: Seq<char>)
    ensures
        doubled(a + b) == doubled(a) + doubled(b),
        doubled(seq!['\'']) == seq!['\'', '\''],
        (forall|i: int| 0 <= i < a.len() ==> (#[trigger] a[i]) != '\'') ==> doubled(a) == a,
        literal(a) == seq!['\''] + doubled(a) + seq!['\''],
    decreases b.len(), a.len(),
{
    reveal_with_fuel(doubled, 2);
    assert(seq!['\''].drop_last() =~= Seq::empty());
    assert(doubled(seq!['\'']) =~= seq!['\'', '\'']);
    if b.len() == 0 {
        assert(a + b =~= a);
        assert(doubled(a + b) =~= doubled(a) + doubled(b));
        if a.len() > 0 {
            let shorter = a.drop_last();
            lemma_only_quotes_are_doubled(shorter, b);
            if forall|i: int| 0 <= i < a.len() ==> (#[trigger] a[i]) != '\'' {
                assert forall|i: int| 0 <= i < shorter.len() implies (#[trigger] shorter[i]) != '\'' by {
                    assert(a[i] != '\'');
                }
                assert(a[a.len() - 1] != '\'');
                assert(doubled(a) =~= a);
            }
        } else {
            assert(doubled(a) =~= a);
        }
    } else {
        lemma_only_quotes_are_doubled(a, b.drop_last());
        assert((a + b).drop_last() =~= a + b.drop_last());
        assert((a + b).last() == b.last());
        assert(doubled(a + b) =~= doubled(a) + doubled(b));
    }
}

/// Each name is in the list once, in its place, with a comma and a space before all but the
/// first.
pub proof fn lemma_list_grows_by_names(names: Seq<Seq<char>>, name: Seq<char>)
    ensures
        literal_list(Seq::<Seq<char>>::empty()) == Seq::<char>::empty(),
        literal_list(seq![name]) == literal(name),
        names.len() > 0 ==> literal_list(names.push(name)) == literal_list(names) + seq![',', ' ']
            + literal(name),
{
    reveal_strlit(", ");
    assert(", "@ =~= seq![',', ' ']);
    if names.len() > 0 {
        assert(names.push(name).drop_last() =~= names);
    }
}

} // verus!
