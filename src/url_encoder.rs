//! Table-driven percent encoding.
//!
//! An [`EncodingTable`] maps keys (normally single characters) to escape codes.
//! It is built from an ordered list of source lines: the line at index `i`
//! gets the code `%` followed by the uppercase hexadecimal rendering of
//! `BASE_CODE + i`, the token `space` stands for a literal space, and a later
//! line with the same key replaces the earlier mapping.
use vstd::prelude::*;
use crate::hex::{escape_code, format_escape};
use crate::table::EncodingTable;
use crate::text::{char_is_alphanumeric, char_string, is_alnum, push_char};

verus! {

/// The value assigned to the first source line (the ASCII code of a space).
pub const BASE_CODE: usize = 32;

/// The source token that stands for a literal space character.
pub open spec fn space_token() -> Seq<char> {
    seq!['s', 'p', 'a', 'c', 'e']
}

/// The table key that a source line denotes.
pub open spec fn key_of(line: Seq<char>) -> Seq<char> {
    if line == space_token() {
        seq![' ']
    } else {
        line
    }
}

/// The escape code assigned to the source line at index `i`.
pub open spec fn line_code(i: nat) -> Seq<char> {
    escape_code(BASE_CODE as nat + i)
}

/// The character contents of a list of source lines.
pub open spec fn lines_view(lines: Seq<String>) -> Seq<Seq<char>> {
    lines.map_values(|l: String| l@)
}

/// The mapping built from `lines`, inserting line by line so that a later
/// line with the same key overwrites an earlier one.
pub open spec fn table_of(lines: Seq<Seq<char>>) -> Map<Seq<char>, Seq<char>>
    decreases lines.len(),
{
    if lines.len() == 0 {
        Map::empty()
    } else {
        let i = (lines.len() - 1) as nat;
        table_of(lines.drop_last()).insert(key_of(lines[i as int]), line_code(i))
    }
}

/// The keys that a list of source lines denotes, line by line.
pub open spec fn keys_of(lines: Seq<Seq<char>>) -> Seq<Seq<char>> {
    lines.map_values(|l: Seq<char>| key_of(l))
}

/// When no later line denotes the same key, the key of the line at index `i`
/// is in the table and mapped to that line's code: the last line wins.
pub proof fn table_keeps_last_line(lines: Seq<Seq<char>>, i: int)
    requires
        0 <= i < lines.len(),
        forall|j: int| i < j < lines.len() ==> key_of(#[trigger] lines[j]) != key_of(lines[i]),
    ensures
        table_of(lines).dom().contains(key_of(lines[i])),
        table_of(lines)[key_of(lines[i])] == line_code(i as nat),
    decreases lines.len(),
{
    if i < lines.len() - 1 {
        let d = lines.drop_last();
        assert forall|j: int| i < j < d.len() implies key_of(#[trigger] d[j]) != key_of(d[i]) by {
            assert(d[j] == lines[j]);
        }
        table_keeps_last_line(d, i);
        assert(key_of(lines[lines.len() - 1]) != key_of(lines[i]));
    }
}

/// The keys of the table are exactly the keys that the lines denote.
pub proof fn table_keys_are_line_keys(lines: Seq<Seq<char>>, k: Seq<char>)
    ensures
        table_of(lines).dom().finite(),
        table_of(lines).dom().contains(k) <==> keys_of(lines).contains(k),
    decreases lines.len(),
{
    if lines.len() > 0 {
        let d = lines.drop_last();
        table_keys_are_line_keys(d, k);
        assert(keys_of(d) =~= keys_of(lines).drop_last());
        if keys_of(lines).contains(k) && k != key_of(lines.last()) {
            let j = choose|j: int| 0 <= j < keys_of(lines).len() && keys_of(lines)[j] == k;
            assert(keys_of(d)[j] == k);
        }
        if keys_of(d).contains(k) {
            let j = choose|j: int| 0 <= j < keys_of(d).len() && keys_of(d)[j] == k;
            assert(keys_of(lines)[j] == k);
        }
        if k == key_of(lines.last()) {
            assert(keys_of(lines)[lines.len() - 1] == k);
        }
    }
}

/// When no two lines denote the same key, the table has one key per line,
/// and the line at index `i` is mapped to `line_code(i)`.
pub proof fn table_of_distinct_lines(lines: Seq<Seq<char>>)
    requires
        keys_of(lines).no_duplicates(),
    ensures
        table_of(lines).dom().len() == lines.len(),
        forall|i: int|
            0 <= i < lines.len() ==> table_of(lines).dom().contains(key_of(#[trigger] lines[i]))
                && table_of(lines)[key_of(lines[i])] == line_code(i as nat),
    decreases lines.len(),
{
    assert forall|i: int| 0 <= i < lines.len() implies table_of(lines).dom().contains(
        key_of(#[trigger] lines[i]),
    ) && table_of(lines)[key_of(lines[i])] == line_code(i as nat) by {
        assert forall|j: int| i < j < lines.len() implies key_of(#[trigger] lines[j]) != key_of(
            lines[i],
        ) by {
            assert(keys_of(lines)[j] != keys_of(lines)[i]);
        }
        table_keeps_last_line(lines, i);
    }
    if lines.len() > 0 {
        let d = lines.drop_last();
        let k = key_of(lines.last());
        assert(keys_of(d) =~= keys_of(lines).drop_last());
        table_of_distinct_lines(d);
        table_keys_are_line_keys(d, k);
        assert(!keys_of(d).contains(k)) by {
            if keys_of(d).contains(k) {
                let j = choose|j: int| 0 <= j < keys_of(d).len() && keys_of(d)[j] == k;
                assert(keys_of(lines)[j] == keys_of(lines)[lines.len() - 1]);
            }
        }
    }
}

/// The token `space` is never a key of the table: a line holding it is
/// entered under the single space character instead.
pub proof fn space_token_becomes_space(lines: Seq<Seq<char>>)
    ensures
        !table_of(lines).dom().contains(space_token()),
        (exists|i: int| 0 <= i < lines.len() && #[trigger] lines[i] == space_token())
            ==> table_of(lines).dom().contains(seq![' ']),
{
    table_keys_are_line_keys(lines, space_token());
    table_keys_are_line_keys(lines, seq![' ']);
    if keys_of(lines).contains(space_token()) {
        let j = choose|j: int| 0 <= j < keys_of(lines).len() && keys_of(lines)[j] == space_token();
        assert(space_token()[0] == 's');
        assert(seq![' '][0] == ' ');
    }
    if exists|i: int| 0 <= i < lines.len() && #[trigger] lines[i] == space_token() {
        let i = choose|i: int| 0 <= i < lines.len() && #[trigger] lines[i] == space_token();
        assert(keys_of(lines)[i] == seq![' ']);
    }
}

fn is_space_token(line: &String) -> (r: bool)
    ensures
        r == (line@ == space_token()),
{
    let token = String::from_str("space");
    proof {
        reveal_strlit("space");
    }
    assert(token@ =~= space_token());
    *line == token
}

/// Builds the table from source lines: the line at index `i` is mapped to
/// `line_code(i)` under the key `key_of(line)`, later lines overwriting
/// earlier ones.
pub fn build_table(lines: &Vec<String>) -> (t: EncodingTable)
    requires
        lines.len() <= usize::MAX - BASE_CODE,
    ensures
        t.well_formed(),
        t@ == table_of(lines_view(lines@)),
{
    let ghost all = lines_view(lines@);
    let mut t = EncodingTable::new();
    let mut i: usize = 0;
    while i < lines.len()
        invariant
            i <= lines.len(),
            lines.len() <= usize::MAX - BASE_CODE,
            all == lines_view(lines@),
            t.well_formed(),
            t@ == table_of(all.take(i as int)),
        decreases lines.len() - i,
    {
        let key = if is_space_token(&lines[i]) {
            char_string(' ')
        } else {
            lines[i].clone()
        };
        let code = format_escape(BASE_CODE + i);
        t.insert(key, code);
        assert(all.take(i + 1).drop_last() =~= all.take(i as int));
        i += 1;
    }
    assert(all.take(lines.len() as int) =~= all);
    t
}

/// A line without the carriage return that may precede its newline.
pub open spec fn strip_cr(line: Seq<char>) -> Seq<char> {
    if line.len() > 0 && line.last() == '\r' {
        line.drop_last()
    } else {
        line
    }
}

/// The lines completed so far, and the line in progress, after reading `text`.
pub open spec fn split_state(text: Seq<char>) -> (Seq<Seq<char>>, Seq<char>)
    decreases text.len(),
{
    if text.len() == 0 {
        (Seq::empty(), Seq::empty())
    } else {
        let (done, cur) = split_state(text.drop_last());
        if text.last() == '\n' {
            (done.push(strip_cr(cur)), Seq::empty())
        } else {
            (done, cur.push(text.last()))
        }
    }
}

/// The lines of `text`: separated by newlines, each without its newline or
/// a carriage return before it; a last line without a newline counts when it
/// is not empty.
pub open spec fn lines_of(text: Seq<char>) -> Seq<Seq<char>> {
    let (done, cur) = split_state(text);
    if cur.len() == 0 {
        done
    } else {
        done.push(cur)
    }
}

fn strip_cr_exec(line: String) -> (r: String)
    ensures
        r@ == strip_cr(line@),
{
    let n = line.as_str().unicode_len();
    if n > 0 && line.as_str().get_char(n - 1) == '\r' {
        String::from_str(line.as_str().substring_char(0, n - 1))
    } else {
        line
    }
}

/// Splits the text of a table source into its lines.
pub fn split_lines(text: &str) -> (lines: Vec<String>)
    ensures
        lines_view(lines@) == lines_of(text@),
        lines.len() <= text@.len(),
{
    let mut done: Vec<String> = Vec::new();
    let mut cur = String::new();
    for c in it: text.chars()
        invariant
            it.seq() == text@,
            (lines_view(done@), cur@) == split_state(text@.take(it.index() as int)),
            done.len() + cur@.len() <= it.index(),
    {
        proof {
            assert(text@.take(it.index() + 1).drop_last() =~= text@.take(it.index() as int));
        }
        if c == '\n' {
            let ghost prev = lines_view(done@);
            let ghost pending = cur@;
            let line = strip_cr_exec(cur);
            done.push(line);
            cur = String::new();
            proof {
                assert(lines_view(done@) =~= prev.push(strip_cr(pending)));
            }
        } else {
            push_char(&mut cur, c);
        }
    }
    assert(text@.take(text@.len() as int) =~= text@);
    if cur.as_str().unicode_len() > 0 {
        let ghost prev = lines_view(done@);
        let ghost pending = cur@;
        done.push(cur);
        proof {
            assert(lines_view(done@) =~= prev.push(pending));
        }
    }
    done
}

/// Builds the table from the text of a table source, one token per line.
pub fn table_from_text(text: &str) -> (t: EncodingTable)
    requires
        text@.len() <= usize::MAX - BASE_CODE,
    ensures
        t.well_formed(),
        t@ == table_of(lines_of(text@)),
{
    let lines = split_lines(text);
    build_table(&lines)
}

/// The error of an encoding that cannot be completed.
#[derive(Debug, Clone, Copy, PartialEq, Eq, Structural)]
pub enum EncodeError {
    /// The character needs escaping and the table has no entry for it.
    LookupMiss(char),
}

/// What a single character becomes: itself when it passes through, its
/// table entry otherwise, or the character back as an error when the table
/// has no entry for it.
pub open spec fn char_piece(c: char, pass_through: bool, table: Map<Seq<char>, Seq<char>>) -> Result<
    Seq<char>,
    char,
> {
    if pass_through {
        Ok(seq![c])
    } else if table.dom().contains(seq![c]) {
        Ok(table[seq![c]])
    } else {
        Err(c)
    }
}

/// Whether `c` is emitted verbatim under the given flag.
pub open spec fn passes_through(c: char, skip_alphanumeric: bool) -> bool {
    skip_alphanumeric && is_alnum(c)
}

/// The encoding of `input`: the pieces of its characters, in order, or the
/// first character that has no table entry although it needs one.
pub open spec fn encoded(
    input: Seq<char>,
    skip_alphanumeric: bool,
    table: Map<Seq<char>, Seq<char>>,
) -> Result<Seq<char>, char>
    decreases input.len(),
{
    if input.len() == 0 {
        Ok(Seq::empty())
    } else {
        let c = input.last();
        match encoded(input.drop_last(), skip_alphanumeric, table) {
            Err(e) => Err(e),
            Ok(prefix) => match char_piece(c, passes_through(c, skip_alphanumeric), table) {
                Err(e) => Err(e),
                Ok(piece) => Ok(prefix + piece),
            },
        }
    }
}

proof fn lemma_encoded_error_persists(
    input: Seq<char>,
    k: int,
    skip_alphanumeric: bool,
    table: Map<Seq<char>, Seq<char>>,
)
    requires
        0 <= k <= input.len(),
        encoded(input.take(k), skip_alphanumeric, table) is Err,
    ensures
        encoded(input, skip_alphanumeric, table) == encoded(input.take(k), skip_alphanumeric, table),
    decreases input.len() - k,
{
    if k < input.len() {
        assert(input.take(k + 1).drop_last() =~= input.take(k));
        lemma_encoded_error_persists(input, k + 1, skip_alphanumeric, table);
    } else {
        assert(input.take(k) =~= input);
    }
}

/// Whether an exec result agrees with a spec result.
pub open spec fn result_matches(r: Result<String, EncodeError>, s: Result<Seq<char>, char>) -> bool {
    match s {
        Ok(v) => r is Ok && r->Ok_0@ == v,
        Err(c) => r == Err::<String, EncodeError>(EncodeError::LookupMiss(c)),
    }
}

/// Any two results that agree with the encoding of the same input, flag and
/// mapping are the same: encoding depends on nothing else.
pub proof fn encoding_is_deterministic(
    r1: Result<String, EncodeError>,
    r2: Result<String, EncodeError>,
    input: Seq<char>,
    skip_alphanumeric: bool,
    table: Map<Seq<char>, Seq<char>>,
)
    requires
        result_matches(r1, encoded(input, skip_alphanumeric, table)),
        result_matches(r2, encoded(input, skip_alphanumeric, table)),
    ensures
        r1 is Ok <==> r2 is Ok,
        r1 is Ok ==> r1->Ok_0@ == r2->Ok_0@,
        r1 is Err ==> r1 == r2,
{
}

/// Whether the table can encode `c` under the given flag.
pub open spec fn encodable(c: char, skip_alphanumeric: bool, table: Map<Seq<char>, Seq<char>>) -> bool {
    passes_through(c, skip_alphanumeric) || table.dom().contains(seq![c])
}

/// Encoding succeeds exactly when every character of the input either passes
/// through or has a table entry; otherwise it reports the first character
/// that does neither.
pub proof fn encoding_succeeds_iff_all_encodable(
    input: Seq<char>,
    skip_alphanumeric: bool,
    table: Map<Seq<char>, Seq<char>>,
)
    ensures
        encoded(input, skip_alphanumeric, table) is Ok <==> forall|i: int|
            0 <= i < input.len() ==> encodable(#[trigger] input[i], skip_alphanumeric, table),
        encoded(input, skip_alphanumeric, table) is Err ==> exists|i: int|
            0 <= i < input.len() && !encodable(#[trigger] input[i], skip_alphanumeric, table)
                && (forall|j: int|
                0 <= j < i ==> encodable(#[trigger] input[j], skip_alphanumeric, table))
                && encoded(input, skip_alphanumeric, table) == Err::<Seq<char>, char>(input[i]),
    decreases input.len(),
{
    if input.len() > 0 {
        let d = input.drop_last();
        let n = input.len() - 1;
        encoding_succeeds_iff_all_encodable(d, skip_alphanumeric, table);
        assert forall|i: int| 0 <= i < d.len() implies d[i] == input[i] by {}
        if encoded(d, skip_alphanumeric, table) is Err {
            let i = choose|i: int|
                0 <= i < d.len() && !encodable(#[trigger] d[i], skip_alphanumeric, table)
                    && (forall|j: int|
                    0 <= j < i ==> encodable(#[trigger] d[j], skip_alphanumeric, table))
                    && encoded(d, skip_alphanumeric, table) == Err::<Seq<char>, char>(d[i]);
            assert(input[i] == d[i]);
            assert forall|j: int| 0 <= j < i implies encodable(
                #[trigger] input[j],
                skip_alphanumeric,
                table,
            ) by {
                assert(d[j] == input[j]);
            }
        } else if !encodable(input[n], skip_alphanumeric, table) {
            assert forall|j: int| 0 <= j < n implies encodable(
                #[trigger] input[j],
                skip_alphanumeric,
                table,
            ) by {
                assert(d[j] == input[j]);
            }
        } else {
            assert forall|i: int| 0 <= i < input.len() implies encodable(
                #[trigger] input[i],
                skip_alphanumeric,
                table,
            ) by {
                if i < n {
                    assert(d[i] == input[i]);
                }
            }
        }
    }
}

/// The empty input encodes to the empty output, whatever the flag and table.
pub proof fn empty_input_encodes_to_empty(
    skip_alphanumeric: bool,
    table: Map<Seq<char>, Seq<char>>,
)
    ensures
        encoded(Seq::empty(), skip_alphanumeric, table) == Ok::<Seq<char>, char>(Seq::empty()),
{
}

/// Encodes one character: verbatim when `pass_through` holds, else by its
/// table entry.
pub fn encode_char(c: char, pass_through: bool, table: &EncodingTable) -> (r: Result<
    String,
    EncodeError,
>)
    requires
        table.well_formed(),
    ensures
        result_matches(r, char_piece(c, pass_through, table@)),
{
    let key = char_string(c);
    if pass_through {
        Ok(key)
    } else {
        match table.get(&key) {
            Some(code) => Ok(code),
            None => Err(EncodeError::LookupMiss(c)),
        }
    }
}

/// Percent-encodes `input` with `table`, character by character; with
/// `skip_alphanumeric`, alphanumeric characters are copied unchanged.
pub fn encode_str(input: &str, skip_alphanumeric: bool, table: &EncodingTable) -> (r: Result<
    String,
    EncodeError,
>)
    requires
        table.well_formed(),
    ensures
        result_matches(r, encoded(input@, skip_alphanumeric, table@)),
        input@.len() == 0 ==> r is Ok && r->Ok_0@.len() == 0,
{
    let mut out = String::new();
    let ghost mut done: Seq<char> = Seq::empty();
    for c in it: input.chars()
        invariant
            table.well_formed(),
            it.seq() == input@,
            done == it.seq().take(it.index() as int),
            encoded(done, skip_alphanumeric, table@) == Ok::<Seq<char>, char>(out@),
    {
        let pass = skip_alphanumeric && char_is_alphanumeric(c);
        let piece = encode_char(c, pass, table);
        proof {
            done = done.push(c);
            assert(done.drop_last() =~= it.seq().take(it.index() as int));
        }
        match piece {
            Ok(p) => {
                out.append(p.as_str());
            },
            Err(e) => {
                proof {
                    assert(c == input@[it.index() as int]);
                    assert(done =~= input@.take(done.len() as int));
                    assert(encoded(done, skip_alphanumeric, table@) == Err::<Seq<char>, char>(c));
                    lemma_encoded_error_persists(input@, done.len() as int, skip_alphanumeric, table@);
                }
                return Err(e);
            },
        }
    }
    assert(done =~= input@);
    Ok(out)
}

} // verus!
