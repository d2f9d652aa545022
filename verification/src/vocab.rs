//! The vocabulary: reading `tokens.txt`, and joining tokens to text.
use vstd::prelude::*;

use crate::text;

verus! {

/// The mark that SentencePiece puts where a word begins.
pub const WORD_START: char = '\u{2581}';

/// Why a vocabulary cannot be read, with the line at fault.
#[derive(Debug)]
pub enum TokensError {
    /// The line has no space between token and id.
    Malformed(String),
    /// What stands behind the last space, `id`, is no id.
    BadId { line: String, id: String },
}

/// The place of the last space of a line.
pub open spec fn last_space(line: Seq<char>) -> Option<int>
    decreases line.len(),
{
    if line.len() == 0 {
        None
    } else if line.last() == ' ' {
        Some(line.len() - 1)
    } else {
        last_space(line.drop_last())
    }
}

/// `line` without the carriage returns behind.
pub open spec fn without_returns(line: Seq<char>) -> Seq<char>
    decreases line.len(),
{
    if line.len() > 0 && line.last() == '\r' {
        without_returns(line.drop_last())
    } else {
        line
    }
}

/// The id that stands behind the space at `k`.
pub open spec fn id_behind(line: Seq<char>, k: int) -> Option<nat> {
    text::natural(text::trim(line.skip(k + 1)))
}

/// What stands where the id of a line should, without the white space around it.
pub open spec fn id_text(line: Seq<char>) -> Seq<char> {
    text::trim(line.skip(last_space(line)->0 + 1))
}

/// Whether a line holds no space.
pub open spec fn is_malformed(line: Seq<char>) -> bool {
    last_space(line) is None
}

/// Whether a line holds a token and an id: `<token> <id>`.
pub open spec fn is_entry(line: Seq<char>) -> bool {
    match last_space(line) {
        None => false,
        Some(k) => match id_behind(line, k) {
            None => false,
            Some(id) => id <= usize::MAX,
        },
    }
}

/// The entry that a line holds.
pub open spec fn entry_of(line: Seq<char>) -> (nat, Seq<char>) {
    let k = last_space(line)->0;
    (id_behind(line, k)->0, line.take(k))
}

/// The lines of a text that are looked at: without their ends, and without empty ones.
pub open spec fn filled(lines: Seq<Seq<char>>) -> Seq<Seq<char>>
    decreases lines.len(),
{
    if lines.len() == 0 {
        Seq::empty()
    } else {
        let rest = filled(lines.drop_last());
        let line = without_returns(lines.last());
        if line.len() == 0 {
            rest
        } else {
            rest.push(line)
        }
    }
}

/// The lines of `tokens.txt` that are looked at.
pub open spec fn entry_lines(file: Seq<char>) -> Seq<Seq<char>> {
    filled(text::split(file, seq!['\n']))
}

/// Whether line `i` is the first that holds no entry.
pub open spec fn is_first_fault(lines: Seq<Seq<char>>, i: int) -> bool {
    &&& 0 <= i < lines.len()
    &&& !is_entry(lines[i])
    &&& forall|j: int| 0 <= j < i ==> is_entry(#[trigger] lines[j])
}

/// Whether every line holds an entry.
pub open spec fn all_entries(lines: Seq<Seq<char>>) -> bool {
    forall|i: int| 0 <= i < lines.len() ==> is_entry(#[trigger] lines[i])
}

/// The entries of lines.
pub open spec fn entries(lines: Seq<Seq<char>>) -> Seq<(nat, Seq<char>)> {
    Seq::new(lines.len(), |i: int| entry_of(lines[i]))
}

/// The contents of a list of entries.
pub open spec fn entry_views(v: Seq<(usize, String)>) -> Seq<(nat, Seq<char>)> {
    Seq::new(v.len(), |i: int| (v[i].0 as nat, v[i].1@))
}

/// The token of an id: that of its last entry, empty where it has none.
pub open spec fn token_of(entries: Seq<(nat, Seq<char>)>, id: nat) -> Seq<char>
    decreases entries.len(),
{
    if entries.len() == 0 {
        Seq::empty()
    } else if entries.last().0 == id {
        entries.last().1
    } else {
        token_of(entries.drop_last(), id)
    }
}

/// The largest id of entries; 0 where there are none.
pub open spec fn largest_id(entries: Seq<(nat, Seq<char>)>) -> nat
    decreases entries.len(),
{
    if entries.len() == 0 {
        0
    } else {
        let rest = largest_id(entries.drop_last());
        if entries.last().0 > rest {
            entries.last().0
        } else {
            rest
        }
    }
}

/// The table of entries: each token at its id.
pub open spec fn table(entries: Seq<(nat, Seq<char>)>) -> Seq<Seq<char>> {
    Seq::new(largest_id(entries) + 1, |id: int| token_of(entries, id as nat))
}

/// Where the last space of a line stands.
fn find_last_space(line: &Vec<char>) -> (r: Option<usize>)
    ensures
        match r {
            Some(k) => k < line@.len() && last_space(line@) == Some(k as int),
            None => last_space(line@) is None,
        },
{
    let mut i: usize = line.len();
    assert(line@.take(i as int) == line@);
    while i > 0
        invariant
            i <= line@.len(),
            last_space(line@) == last_space(line@.take(i as int)),
        decreases i,
    {
        assert(line@.take(i as int).drop_last() == line@.take(i - 1));
        if line[i - 1] == ' ' {
            return Some(i - 1);
        }
        i = i - 1;
    }
    None
}

/// Reads one line, which is not empty.
fn parse_line(line: &Vec<char>) -> (r: Result<(usize, String), TokensError>)
    ensures
        match r {
            Ok((id, token)) => is_entry(line@) && entry_of(line@) == (id as nat, token@),
            Err(TokensError::Malformed(l)) => is_malformed(line@) && l@ == line@,
            Err(TokensError::BadId { line: l, id }) => {
                &&& !is_malformed(line@)
                &&& !is_entry(line@)
                &&& l@ == line@
                &&& id@ == id_text(line@)
            },
        },
{
    let len: usize = line.len();
    assert(line@.subrange(0, line@.len() as int) == line@);
    match find_last_space(line) {
        None => Err(TokensError::Malformed(text::from_chars(line, 0, len))),
        Some(k) => {
            assert(line@.subrange(k + 1, line@.len() as int) == line@.skip(k + 1));
            assert(line@.subrange(0, k as int) == line@.take(k as int));
            let id = text::trimmed(text::from_chars(line, k + 1, len).as_str());
            match text::parse_usize(id.as_str()) {
                None => Err(TokensError::BadId { line: text::from_chars(line, 0, len), id }),
                Some(id) => Ok((id, text::from_chars(line, 0, k))),
            }
        },
    }
}

/// Reads the entries of `tokens.txt`: one line `<token> <id>` each.
pub fn parse_entries(file: &str) -> (r: Result<Vec<(usize, String)>, TokensError>)
    ensures
        match r {
            Ok(v) => {
                &&& all_entries(entry_lines(file@))
                &&& entry_views(v@) == entries(entry_lines(file@))
            },
            Err(TokensError::Malformed(l)) => exists|i: int|
                #[trigger] is_first_fault(entry_lines(file@), i) && entry_lines(file@)[i] == l@
                    && is_malformed(l@),
            Err(TokensError::BadId { line: l, id }) => exists|i: int|
                #[trigger] is_first_fault(entry_lines(file@), i) && entry_lines(file@)[i] == l@
                    && !is_malformed(l@) && id@ == id_text(l@),
        },
{
    let separators: [char; 1] = ['\n'];
    assert(separators@ == seq!['\n']);
    let lines = text::split_at_any(file, separators.as_slice());
    let ghost all = text::views(lines@);
    let ghost wanted = filled(all);
    let mut found: Vec<(usize, String)> = Vec::new();
    let mut i: usize = 0;
    proof {
        assert(all.take(0) == Seq::<Seq<char>>::empty());
        assert(entry_views(found@) == entries(filled(all.take(0))));
    }
    while i < lines.len()
        invariant
            i <= lines@.len(),
            all == text::views(lines@),
            wanted == filled(all),
            wanted == entry_lines(file@),
            all_entries(filled(all.take(i as int))),
            entry_views(found@) == entries(filled(all.take(i as int))),
        decreases lines@.len() - i,
    {
        let mut line: Vec<char> = text::to_chars(lines[i].as_str());
        while line.len() > 0 && line[line.len() - 1] == '\r'
            invariant
                without_returns(line@) == without_returns(all[i as int]),
            decreases line@.len(),
        {
            assert(line@.drop_last() == line@.subrange(0, line@.len() - 1));
            line.pop();
        }
        let ghost before = filled(all.take(i as int));
        assert(all.take(i + 1).drop_last() == all.take(i as int));
        if line.len() > 0 {
            assert(filled(all.take(i + 1)) == before.push(line@));
            proof {
                filled_extends(all, i + 1);
                assert(wanted[before.len() as int] == line@);
                assert forall|j: int| 0 <= j < before.len() implies is_entry(
                    #[trigger] wanted[j],
                ) by {
                    assert(before.push(line@)[j] == before[j]);
                    assert(is_entry(before[j]));
                }
                if !is_entry(line@) {
                    assert(is_first_fault(wanted, before.len() as int));
                }
            }
            match parse_line(&line) {
                Ok(pair) => {
                    let ghost had = entry_views(found@);
                    found.push(pair);
                    assert(entry_views(found@) == had.push(entry_of(line@)));
                    assert(entries(before.push(line@)) == entries(before).push(entry_of(line@)));
                },
                Err(e) => {
                    return Err(e);
                },
            }
        }
        i = i + 1;
    }
    assert(all.take(i as int) == all);
    Ok(found)
}

/// What is looked at among the first lines is what all lines start with.
proof fn filled_extends(lines: Seq<Seq<char>>, k: int)
    requires
        0 <= k <= lines.len(),
    ensures
        filled(lines.take(k)).len() <= filled(lines).len(),
        forall|j: int|
            0 <= j < filled(lines.take(k)).len() ==> #[trigger] filled(lines)[j] == filled(
                lines.take(k),
            )[j],
    decreases lines.len(),
{
    if k == lines.len() {
        assert(lines.take(k) == lines);
    } else {
        filled_extends(lines.drop_last(), k);
        assert(lines.drop_last().take(k) == lines.take(k));
    }
}

/// Puts every token at its id.
pub fn place(pairs: &Vec<(usize, String)>) -> (tokens: Vec<String>)
    requires
        largest_id(entry_views(pairs@)) < usize::MAX,
    ensures
        text::views(tokens@) == table(entry_views(pairs@)),
{
    let ghost all = entry_views(pairs@);
    let mut max_id: usize = 0;
    let mut i: usize = 0;
    assert(all.take(0) == Seq::<(nat, Seq<char>)>::empty());
    while i < pairs.len()
        invariant
            i <= pairs@.len(),
            all == entry_views(pairs@),
            max_id == largest_id(all.take(i as int)),
        decreases pairs@.len() - i,
    {
        assert(all.take(i + 1).drop_last() == all.take(i as int));
        if pairs[i].0 > max_id {
            max_id = pairs[i].0;
        }
        i = i + 1;
    }
    assert(all.take(i as int) == all);
    let mut tokens: Vec<String> = Vec::new();
    let mut k: usize = 0;
    while k < max_id + 1
        invariant
            k <= max_id + 1,
            max_id < usize::MAX,
            tokens@.len() == k,
            forall|j: int| 0 <= j < k ==> (#[trigger] tokens@[j])@ == Seq::<char>::empty(),
        decreases max_id + 1 - k,
    {
        tokens.push(String::new());
        k = k + 1;
    }
    let mut p: usize = 0;
    while p < pairs.len()
        invariant
            p <= pairs@.len(),
            all == entry_views(pairs@),
            max_id == largest_id(all),
            tokens@.len() == max_id + 1,
            forall|j: int|
                0 <= j < tokens@.len() ==> (#[trigger] tokens@[j])@ == token_of(
                    all.take(p as int),
                    j as nat,
                ),
        decreases pairs@.len() - p,
    {
        assert(all.take(p + 1).drop_last() == all.take(p as int));
        proof {
            largest_id_bounds(all, p as int);
        }
        let id: usize = pairs[p].0;
        tokens[id] = pairs[p].1.clone();
        p = p + 1;
    }
    assert(all.take(p as int) == all);
    assert(text::views(tokens@) == table(all));
    tokens
}

/// No id is above the largest.
proof fn largest_id_bounds(entries: Seq<(nat, Seq<char>)>, i: int)
    requires
        0 <= i < entries.len(),
    ensures
        entries[i].0 <= largest_id(entries),
    decreases entries.len(),
{
    if i < entries.len() - 1 {
        largest_id_bounds(entries.drop_last(), i);
    }
}

/// Reads `tokens.txt` to the table of its tokens.
pub fn load_tokens(file: &str) -> (r: Result<Vec<String>, TokensError>)
    requires
        all_entries(entry_lines(file@)) ==> largest_id(entries(entry_lines(file@))) < usize::MAX,
    ensures
        match r {
            Ok(tokens) => {
                &&& all_entries(entry_lines(file@))
                &&& text::views(tokens@) == table(entries(entry_lines(file@)))
            },
            Err(TokensError::Malformed(l)) => exists|i: int|
                #[trigger] is_first_fault(entry_lines(file@), i) && entry_lines(file@)[i] == l@
                    && is_malformed(l@),
            Err(TokensError::BadId { line: l, id }) => exists|i: int|
                #[trigger] is_first_fault(entry_lines(file@), i) && entry_lines(file@)[i] == l@
                    && !is_malformed(l@) && id@ == id_text(l@),
        },
{
    match parse_entries(file) {
        Ok(pairs) => Ok(place(&pairs)),
        Err(e) => Err(e),
    }
}

/// The text of a token: nothing for a special token such as `<|zh|>`, a space in front where a
/// word begins.
pub open spec fn piece(token: Seq<char>) -> Seq<char> {
    if token.len() > 0 && token[0] == '<' {
        Seq::empty()
    } else if token.len() > 0 && token[0] == WORD_START {
        seq![' '] + token.skip(1)
    } else {
        token
    }
}

/// The texts of the tokens with these ids, one behind the other; unknown ids are passed over.
pub open spec fn joined(tokens: Seq<Seq<char>>, ids: Seq<usize>) -> Seq<char>
    decreases ids.len(),
{
    if ids.len() == 0 {
        Seq::empty()
    } else {
        let rest = joined(tokens, ids.drop_last());
        if ids.last() < tokens.len() {
            rest + piece(tokens[ids.last() as int])
        } else {
            rest
        }
    }
}

/// Joins tokens to text, without white space at the ends.
pub fn detokenize(tokens: &Vec<String>, ids: &Vec<usize>) -> (r: String)
    ensures
        r@ == text::trim(joined(text::views(tokens@), ids@)),
{
    let ghost table = text::views(tokens@);
    let mut s = String::new();
    let mut i: usize = 0;
    assert(ids@.take(0) == Seq::<usize>::empty());
    while i < ids.len()
        invariant
            i <= ids@.len(),
            table == text::views(tokens@),
            s@ == joined(table, ids@.take(i as int)),
        decreases ids@.len() - i,
    {
        assert(ids@.take(i + 1).drop_last() == ids@.take(i as int));
        let id: usize = ids[i];
        if id < tokens.len() {
            let token = text::to_chars(tokens[id].as_str());
            let ghost before = s@;
            if token.len() > 0 && token[0] == '<' {
                assert(before + piece(token@) == before);
            } else if token.len() > 0 && token[0] == WORD_START {
                s.push(' ');
                let rest = text::from_chars(&token, 1, token.len());
                s.append(rest.as_str());
                assert(rest@ == token@.skip(1));
                assert(s@ == before + piece(token@));
            } else {
                s.append(tokens[id].as_str());
            }
        }
        i = i + 1;
    }
    assert(ids@.take(i as int) == ids@);
    text::trimmed(s.as_str())
}

/// The line of a vocabulary for a token and its id.
pub open spec fn line_of(token: Seq<char>, id: nat) -> Seq<char> {
    token + seq![' '] + text::decimal(id)
}

/// The vocabulary file that lists tokens in the order of their ids, one line each.
pub open spec fn rendered(tokens: Seq<Seq<char>>) -> Seq<char>
    decreases tokens.len(),
{
    if tokens.len() == 0 {
        Seq::empty()
    } else {
        rendered(tokens.drop_last()) + line_of(tokens.last(), (tokens.len() - 1) as nat) + seq![
            '\n',
        ]
    }
}

/// The lines of that file.
spec fn lines_of(tokens: Seq<Seq<char>>) -> Seq<Seq<char>> {
    Seq::new(tokens.len(), |i: int| line_of(tokens[i], i as nat))
}

proof fn split_grows_by_a_piece(s: Seq<char>, piece: Seq<char>, separators: Seq<char>)
    requires
        forall|i: int| 0 <= i < piece.len() ==> !separators.contains(#[trigger] piece[i]),
    ensures
        text::split(s, separators).len() > 0,
        text::split(s + piece, separators) == text::split(s, separators).drop_last().push(
            text::split(s, separators).last() + piece,
        ),
    decreases piece.len(),
{
    text::split_is_not_empty(s, separators);
    let pieces = text::split(s, separators);
    if piece.len() == 0 {
        assert(s + piece == s);
        assert(pieces.last() + piece == pieces.last());
        assert(pieces.drop_last().push(pieces.last()) == pieces);
    } else {
        split_grows_by_a_piece(s, piece.drop_last(), separators);
        assert((s + piece).drop_last() == s + piece.drop_last());
        assert((s + piece).last() == piece.last());
        assert(!separators.contains(piece[piece.len() - 1]));
        let shorter = text::split(s + piece.drop_last(), separators);
        assert(shorter.drop_last() == pieces.drop_last());
        assert((pieces.last() + piece.drop_last()).push(piece.last()) == pieces.last() + piece);
    }
}

proof fn rendered_lines(tokens: Seq<Seq<char>>)
    requires
        forall|i: int, k: int|
            0 <= i < tokens.len() && 0 <= k < tokens[i].len() ==> #[trigger] tokens[i][k] != '\n',
    ensures
        text::split(rendered(tokens), seq!['\n']) == lines_of(tokens).push(Seq::empty()),
    decreases tokens.len(),
{
    let newline = seq!['\n'];
    if tokens.len() == 0 {
        assert(lines_of(tokens).push(Seq::empty()) == seq![Seq::<char>::empty()]);
    } else {
        let rest = tokens.drop_last();
        assert forall|i: int, k: int|
            0 <= i < rest.len() && 0 <= k < rest[i].len() implies #[trigger] rest[i][k] != '\n' by {
            assert(rest[i] == tokens[i]);
        }
        rendered_lines(rest);
        let id = (tokens.len() - 1) as nat;
        let line = line_of(tokens.last(), id);
        let before = rendered(rest);
        text::decimal_is_read_back(id);
        assert forall|i: int| 0 <= i < line.len() implies !newline.contains(#[trigger] line[i]) by {
            let n = tokens.last().len();
            if i < n {
                assert(line[i] == tokens[tokens.len() - 1][i]);
            } else if i > n {
                assert(line[i] == text::decimal(id)[i - n - 1]);
            }
        }
        split_grows_by_a_piece(before, line, newline);
        let whole = before + line + newline;
        assert(whole.drop_last() == before + line);
        assert(newline.contains(whole.last())) by {
            assert(newline[0] == whole.last());
        }
        let old_lines = lines_of(rest).push(Seq::empty());
        assert(old_lines.drop_last() == lines_of(rest));
        assert(Seq::<char>::empty() + line == line);
        assert(lines_of(tokens) == lines_of(rest).push(line));
    }
}

proof fn no_space_in_digits(token: Seq<char>, digits: Seq<char>)
    requires
        text::all_digits(digits),
    ensures
        last_space(token + seq![' '] + digits) == Some(token.len() as int),
    decreases digits.len(),
{
    let line = token + seq![' '] + digits;
    if digits.len() > 0 {
        no_space_in_digits(token, digits.drop_last());
        assert(line.drop_last() == token + seq![' '] + digits.drop_last());
        assert(line.last() == digits[digits.len() - 1]);
    }
}

proof fn line_is_entry(token: Seq<char>, id: nat)
    requires
        id <= usize::MAX,
    ensures
        is_entry(line_of(token, id)),
        entry_of(line_of(token, id)) == (id, token),
        without_returns(line_of(token, id)) == line_of(token, id),
        line_of(token, id).len() > 0,
{
    let digits = text::decimal(id);
    let line = line_of(token, id);
    text::decimal_is_read_back(id);
    no_space_in_digits(token, digits);
    assert(line.skip(token.len() as int + 1) == digits);
    assert(line.take(token.len() as int) == token);
    assert('0' <= digits[0] <= '9');
    assert('0' <= digits[digits.len() - 1] <= '9');
    assert(text::trim(digits) == digits);
    assert(line.last() == digits.last());
}

proof fn filled_lines(lines: Seq<Seq<char>>)
    requires
        forall|i: int|
            0 <= i < lines.len() ==> (#[trigger] lines[i]).len() > 0 && without_returns(lines[i])
                == lines[i],
    ensures
        filled(lines) == lines,
    decreases lines.len(),
{
    if lines.len() > 0 {
        filled_lines(lines.drop_last());
        assert(lines.drop_last().push(lines.last()) == lines);
    }
}

proof fn listed_in_order(tokens: Seq<Seq<char>>, k: nat)
    requires
        k <= tokens.len(),
    ensures
        ({
            let first = Seq::new(k, |i: int| (i as nat, tokens[i]));
            &&& k > 0 ==> largest_id(first) == k - 1
            &&& forall|id: nat| id < k ==> #[trigger] token_of(first, id) == tokens[id as int]
        }),
    decreases k,
{
    let first = Seq::new(k, |i: int| (i as nat, tokens[i]));
    if k > 0 {
        let rest = Seq::new((k - 1) as nat, |i: int| (i as nat, tokens[i]));
        listed_in_order(tokens, (k - 1) as nat);
        assert(first.drop_last() == rest);
        if k == 1 {
            assert(rest == Seq::<(nat, Seq<char>)>::empty());
        }
        assert forall|id: nat| id < k implies #[trigger] token_of(first, id)
            == tokens[id as int] by {
            if id < k - 1 {
                assert(token_of(rest, id) == tokens[id as int]);
            }
        }
    }
}

/// A vocabulary whose lines stand in the order of their ids is read back: the token of an id
/// is that of the line with this number. Tokens may hold anything but the end of a line.
pub proof fn a_vocabulary_is_indexed_by_its_lines(tokens: Seq<Seq<char>>)
    requires
        tokens.len() > 0,
        tokens.len() <= usize::MAX,
        forall|i: int, k: int|
            0 <= i < tokens.len() && 0 <= k < tokens[i].len() ==> #[trigger] tokens[i][k] != '\n',
    ensures
        all_entries(entry_lines(rendered(tokens))),
        table(entries(entry_lines(rendered(tokens)))) == tokens,
{
    let lines = lines_of(tokens);
    rendered_lines(tokens);
    assert forall|i: int| 0 <= i < lines.len() implies is_entry(#[trigger] lines[i])
        && lines[i].len() > 0 && without_returns(lines[i]) == lines[i] && entry_of(lines[i]) == (
        i as nat,
        tokens[i],
    ) by {
        line_is_entry(tokens[i], i as nat);
    }
    filled_lines(lines);
    let all = lines.push(Seq::empty());
    assert(all.drop_last() == lines);
    assert(filled(all) == lines);
    let first = Seq::new(tokens.len(), |i: int| (i as nat, tokens[i]));
    assert(entries(lines) == first);
    listed_in_order(tokens, tokens.len());
    assert(table(first) == tokens);
}

/// Special tokens, and ids without a token, leave no trace in the text.
pub proof fn special_tokens_leave_no_trace(
    tokens: Seq<Seq<char>>,
    before: Seq<usize>,
    id: usize,
    behind: Seq<usize>,
)
    requires
        id < tokens.len() ==> tokens[id as int].len() > 0 && tokens[id as int][0] == '<',
    ensures
        joined(tokens, before + seq![id] + behind) == joined(tokens, before + behind),
    decreases behind.len(),
{
    let with = before + seq![id] + behind;
    let without = before + behind;
    if behind.len() == 0 {
        assert(with.drop_last() == before);
        assert(without == before);
        assert(joined(tokens, before) + Seq::<char>::empty() == joined(tokens, before));
    } else {
        special_tokens_leave_no_trace(tokens, before, id, behind.drop_last());
        assert(with.drop_last() == before + seq![id] + behind.drop_last());
        assert(without.drop_last() == before + behind.drop_last());
    }
}

/// A further id adds the text of its token behind what there is: the token as it is, or, where
/// it begins with the mark of a word, a space and the rest of it. A token that begins with `<`
/// adds nothing, nor does an id without a token.
pub proof fn a_token_adds_its_text(tokens: Seq<Seq<char>>, ids: Seq<usize>, id: usize)
    ensures
        joined(tokens, Seq::<usize>::empty()) == Seq::<char>::empty(),
        id >= tokens.len() ==> joined(tokens, ids.push(id)) == joined(tokens, ids),
        id < tokens.len() && tokens[id as int].len() == 0 ==> joined(tokens, ids.push(id))
            == joined(tokens, ids),
        id < tokens.len() && tokens[id as int].len() > 0 && tokens[id as int][0] == '<' ==> joined(
            tokens,
            ids.push(id),
        ) == joined(tokens, ids),
        id < tokens.len() && tokens[id as int].len() > 0 && tokens[id as int][0] == '\u{2581}'
            ==> joined(tokens, ids.push(id)) == joined(tokens, ids) + seq![' ']
            + tokens[id as int].skip(1),
        id < tokens.len() && tokens[id as int].len() > 0 && tokens[id as int][0] != '<'
            && tokens[id as int][0] != '\u{2581}' ==> joined(tokens, ids.push(id)) == joined(
            tokens,
            ids,
        ) + tokens[id as int],
{
    assert(ids.push(id).drop_last() == ids);
    let before = joined(tokens, ids);
    assert(before + Seq::<char>::empty() == before);
    if id < tokens.len() {
        let token = tokens[id as int];
        if token.len() == 0 {
            assert(before + token == before);
        }
        assert(before + (seq![' '] + token.skip(1)) == before + seq![' '] + token.skip(1));
    }
}

/// The text of ids in order is the text of the first ones and then that of the others.
pub proof fn text_keeps_the_order_of_ids(
    tokens: Seq<Seq<char>>,
    first: Seq<usize>,
    others: Seq<usize>,
)
    ensures
        joined(tokens, first + others) == joined(tokens, first) + joined(tokens, others),
    decreases others.len(),
{
    if others.len() == 0 {
        assert(first + others == first);
        assert(joined(tokens, first) + joined(tokens, others) == joined(tokens, first));
    } else {
        text_keeps_the_order_of_ids(tokens, first, others.drop_last());
        assert((first + others).drop_last() == first + others.drop_last());
        assert(joined(tokens, first + others) == joined(tokens, first) + joined(tokens, others));
    }
}

proof fn ids_are_at_most_the_largest(entries: Seq<(nat, Seq<char>)>, k: int)
    requires
        0 <= k < entries.len(),
    ensures
        entries[k].0 <= largest_id(entries),
    decreases entries.len(),
{
    if k < entries.len() - 1 {
        assert(entries.drop_last()[k] == entries[k]);
        ids_are_at_most_the_largest(entries.drop_last(), k);
    }
}

/// The token of an entry stands at its id, unless a later entry has the same id.
pub proof fn a_token_stands_at_its_id(entries: Seq<(nat, Seq<char>)>, k: int)
    requires
        0 <= k < entries.len(),
        forall|j: int| k < j < entries.len() ==> (#[trigger] entries[j]).0 != entries[k].0,
    ensures
        entries[k].0 < table(entries).len(),
        table(entries)[entries[k].0 as int] == entries[k].1,
    decreases entries.len(),
{
    ids_are_at_most_the_largest(entries, k);
    if k < entries.len() - 1 {
        let rest = entries.drop_last();
        assert(rest[k] == entries[k]);
        assert forall|j: int| k < j < rest.len() implies (#[trigger] rest[j]).0 != rest[k].0 by {
            assert(rest[j] == entries[j]);
        }
        a_token_stands_at_its_id(rest, k);
        assert(entries[entries.len() - 1].0 != entries[k].0);
        assert(token_of(rest, entries[k].0) == entries[k].1);
    }
}

/// An id without an entry has no text.
pub proof fn an_id_without_entry_has_no_text(entries: Seq<(nat, Seq<char>)>, id: nat)
    requires
        id < table(entries).len(),
        forall|j: int| 0 <= j < entries.len() ==> (#[trigger] entries[j]).0 != id,
    ensures
        table(entries)[id as int] == Seq::<char>::empty(),
{
    no_entry_no_token(entries, id);
}

proof fn no_entry_no_token(entries: Seq<(nat, Seq<char>)>, id: nat)
    requires
        forall|j: int| 0 <= j < entries.len() ==> (#[trigger] entries[j]).0 != id,
    ensures
        token_of(entries, id) == Seq::<char>::empty(),
    decreases entries.len(),
{
    if entries.len() > 0 {
        let rest = entries.drop_last();
        assert forall|j: int| 0 <= j < rest.len() implies (#[trigger] rest[j]).0 != id by {
            assert(rest[j] == entries[j]);
        }
        no_entry_no_token(rest, id);
        assert(entries[entries.len() - 1].0 != id);
    }
}

/// The table ends at the largest id; without entries it has one place.
pub proof fn the_table_ends_at_the_largest_id(entries: Seq<(nat, Seq<char>)>)
    ensures
        entries.len() == 0 ==> table(entries).len() == 1,
        entries.len() > 0 ==> exists|k: int|
            0 <= k < entries.len() && (#[trigger] entries[k]).0 == table(entries).len() - 1,
    decreases entries.len(),
{
    if entries.len() == 1 {
        assert(entries.drop_last() == Seq::<(nat, Seq<char>)>::empty());
        assert(entries[0] == entries.last());
        assert(largest_id(entries.drop_last()) == 0);
    } else if entries.len() > 1 {
        let rest = entries.drop_last();
        the_table_ends_at_the_largest_id(rest);
        let k = choose|k: int|
            0 <= k < rest.len() && (#[trigger] rest[k]).0 == table(rest).len() - 1;
        assert(entries[k] == rest[k]);
        assert(entries[entries.len() - 1] == entries.last());
    }
}

proof fn last_space_before(token: Seq<char>, behind: Seq<char>)
    requires
        !behind.contains(' '),
    ensures
        last_space(token + seq![' '] + behind) == Some(token.len() as int),
    decreases behind.len(),
{
    let line = token + seq![' '] + behind;
    if behind.len() > 0 {
        let rest = behind.drop_last();
        assert forall|i: int| 0 <= i < rest.len() implies rest[i] != ' ' by {
            assert(behind[i] == rest[i]);
            assert(behind.contains(behind[i]));
        }
        last_space_before(token, rest);
        assert(line.drop_last() == token + seq![' '] + rest);
        assert(line.last() == behind[behind.len() - 1]);
        assert(behind.contains(line.last()));
    }
}

/// A line is a token, the last space and an id: the token is all that stands before that space,
/// the id the natural number behind it, white space around it aside. Where there is no such
/// number, the line is no entry, and what stands there is reported.
pub proof fn an_entry_is_a_token_and_an_id(token: Seq<char>, behind: Seq<char>)
    requires
        !behind.contains(' '),
    ensures
        ({
            let line = token + seq![' '] + behind;
            &&& !is_malformed(line)
            &&& id_text(line) == text::trim(behind)
            &&& match text::natural(text::trim(behind)) {
                Some(id) => {
                    &&& is_entry(line) <==> id <= usize::MAX
                    &&& id <= usize::MAX ==> entry_of(line) == (id, token)
                },
                None => !is_entry(line),
            }
        }),
{
    let line = token + seq![' '] + behind;
    last_space_before(token, behind);
    assert(line.skip(token.len() as int + 1) == behind);
    assert(line.take(token.len() as int) == token);
}

/// A line without a space is malformed, and no entry.
pub proof fn a_line_without_space_is_malformed(line: Seq<char>)
    requires
        !line.contains(' '),
    ensures
        is_malformed(line),
        !is_entry(line),
    decreases line.len(),
{
    if line.len() > 0 {
        let rest = line.drop_last();
        assert forall|i: int| 0 <= i < rest.len() implies rest[i] != ' ' by {
            assert(line[i] == rest[i]);
            assert(line.contains(line[i]));
        }
        a_line_without_space_is_malformed(rest);
        assert(line[line.len() - 1] == line.last());
        assert(line.contains(line.last()));
    }
}

proof fn filled_of_both(a: Seq<Seq<char>>, b: Seq<Seq<char>>)
    ensures
        filled(a + b) == filled(a) + filled(b),
    decreases b.len(),
{
    if b.len() == 0 {
        assert(a + b == a);
        assert(filled(a) + filled(b) == filled(a));
    } else {
        filled_of_both(a, b.drop_last());
        assert((a + b).drop_last() == a + b.drop_last());
        assert(filled(a + b) == filled(a) + filled(b));
    }
}

/// The lines before and behind the end of a line are read each on their own, in order.
pub proof fn lines_are_read_one_by_one(a: Seq<char>, b: Seq<char>)
    ensures
        entry_lines(a + seq!['\n'] + b) == entry_lines(a) + entry_lines(b),
{
    let newline = seq!['\n'];
    assert(newline[0] == '\n');
    assert(newline.contains('\n'));
    text::a_separator_splits(a, '\n', b, newline);
    filled_of_both(text::split(a, newline), text::split(b, newline));
}

proof fn returns_are_taken_off(line: Seq<char>, marks: Seq<char>)
    requires
        line.len() == 0 || line.last() != '\r',
        forall|i: int| 0 <= i < marks.len() ==> #[trigger] marks[i] == '\r',
    ensures
        without_returns(line + marks) == line,
    decreases marks.len(),
{
    if marks.len() == 0 {
        assert(line + marks == line);
    } else {
        assert((line + marks).drop_last() == line + marks.drop_last());
        assert((line + marks).last() == marks[marks.len() - 1]);
        returns_are_taken_off(line, marks.drop_last());
    }
}

/// One line is read without the carriage returns at its end, and passed over where nothing else
/// is in it.
pub proof fn a_line_is_read_without_its_returns(line: Seq<char>, marks: Seq<char>)
    requires
        !line.contains('\n'),
        line.len() == 0 || line.last() != '\r',
        forall|i: int| 0 <= i < marks.len() ==> #[trigger] marks[i] == '\r',
    ensures
        line.len() == 0 ==> entry_lines(line + marks) == Seq::<Seq<char>>::empty(),
        line.len() > 0 ==> entry_lines(line + marks) == seq![line],
{
    let newline = seq!['\n'];
    let whole = line + marks;
    assert forall|i: int| 0 <= i < whole.len() implies !newline.contains(#[trigger] whole[i]) by {
        if i < line.len() {
            assert(line.contains(line[i]));
        } else {
            assert(whole[i] == marks[i - line.len()]);
        }
    }
    text::text_without_separators_is_one_piece(whole, newline);
    returns_are_taken_off(line, marks);
    let pieces = seq![whole];
    assert(pieces.drop_last() == Seq::<Seq<char>>::empty());
    assert(filled(pieces.drop_last()) == Seq::<Seq<char>>::empty());
    if line.len() > 0 {
        assert(filled(pieces) == seq![line]);
    }
}

/// The line reported is no entry, and all lines before it are.
pub proof fn the_first_fault_is_reported(lines: Seq<Seq<char>>, i: int, j: int)
    requires
        is_first_fault(lines, i),
        0 <= j < lines.len(),
        !is_entry(lines[j]),
    ensures
        0 <= i <= j,
        !is_entry(lines[i]),
        !all_entries(lines),
{
    assert(!is_entry(lines[i]));
}

/// The entries of lines are those of each line, in order.
pub proof fn entries_keep_the_order_of_lines(
    lines: Seq<Seq<char>>,
    pairs: Seq<(usize, String)>,
    i: int,
)
    ensures
        entries(lines).len() == lines.len(),
        entry_views(pairs).len() == pairs.len(),
        0 <= i < lines.len() ==> entries(lines)[i] == entry_of(lines[i]),
        0 <= i < pairs.len() ==> entry_views(pairs)[i] == (pairs[i].0 as nat, pairs[i].1@),
{
}

} // verus!
