//! The command language: one line in, one action out.
//!
//! A line is trimmed and split into a command word and the remainder.
//! `list`, `add`, `remove`, `save` and `quit` drive the list; anything else
//! asks for the usage text. [`parse_input`] performs the mutation itself
//! and returns an [`Action`] telling the caller what is left to do —
//! print, persist, or report — so that the caller never touches the list.

use crate::todo::{
    items_model, position_set, remove_positions, renumber, ItemModel, Todo, TodoError, TodoList,
};
use vstd::prelude::*;
use vstd::string::{StrSliceExecFns, StringExecFns};

verus! {

/// What the caller must do after a line was handled: show the items, do
/// nothing further, persist the list (and quit, after `quit`), print the
/// usage text, or report a rejected input.
#[derive(Debug, PartialEq)]
pub enum Action {
    Show(Vec<Todo>),
    Done,
    Persist,
    PersistAndQuit,
    Usage,
    Rejected(TodoError),
}

/// The whitespace that trimming removes from the ends of a line.
pub open spec fn is_space_char(c: char) -> bool {
    c == ' ' || c == '\t' || c == '\n' || c == '\r'
}

/// The line without its leading whitespace.
pub open spec fn trim_front(s: Seq<char>) -> Seq<char>
    decreases s.len(),
{
    if s.len() > 0 && is_space_char(s[0]) {
        trim_front(s.drop_first())
    } else {
        s
    }
}

/// The line without its trailing whitespace.
pub open spec fn trim_back(s: Seq<char>) -> Seq<char>
    decreases s.len(),
{
    if s.len() > 0 && is_space_char(s.last()) {
        trim_back(s.drop_last())
    } else {
        s
    }
}

/// The line without whitespace at either end.
pub open spec fn spec_trim(s: Seq<char>) -> Seq<char> {
    trim_back(trim_front(s))
}

/// Length of the leading run of non-space characters.
pub open spec fn word_len(s: Seq<char>) -> nat
    decreases s.len(),
{
    if s.len() == 0 || s[0] == ' ' {
        0
    } else {
        (1 + word_len(s.drop_first())) as nat
    }
}

/// The command word: everything up to the first space.
pub open spec fn spec_word(s: Seq<char>) -> Seq<char> {
    s.take(word_len(s) as int)
}

/// The arguments: everything after the first space, or nothing when the
/// line has no space.
pub open spec fn spec_rest(s: Seq<char>) -> Seq<char> {
    if word_len(s) < s.len() {
        s.skip(word_len(s) as int + 1)
    } else {
        Seq::empty()
    }
}

/// The space-separated tokens of a line, in order, empty runs skipped.
pub open spec fn spec_tokens(s: Seq<char>) -> Seq<Seq<char>>
    decreases s.len(),
    via spec_tokens_decreases
{
    if s.len() == 0 {
        Seq::empty()
    } else if s[0] == ' ' {
        spec_tokens(s.drop_first())
    } else {
        seq![s.take(word_len(s) as int)] + spec_tokens(s.skip(word_len(s) as int))
    }
}

proof fn lemma_word_len_le(s: Seq<char>)
    ensures
        word_len(s) <= s.len(),
    decreases s.len(),
{
    if s.len() > 0 && s[0] != ' ' {
        lemma_word_len_le(s.drop_first());
    }
}

#[via_fn]
proof fn spec_tokens_decreases(s: Seq<char>) {
    if s.len() > 0 && s[0] != ' ' {
        lemma_word_len_le(s);
        assert(word_len(s) >= 1);
    }
}

/// Whether the character is a decimal digit.
pub open spec fn is_digit_char(c: char) -> bool {
    48 <= c as u32 <= 57
}

/// The value of one decimal digit.
pub open spec fn digit_val(c: char) -> int {
    c as u32 - 48
}

/// Whether every character is a decimal digit.
pub open spec fn all_digits(s: Seq<char>) -> bool {
    forall|i: int| 0 <= i < s.len() ==> is_digit_char(#[trigger] s[i])
}

/// The number a digit string denotes.
pub open spec fn dec_value(s: Seq<char>) -> int
    decreases s.len(),
{
    if s.len() == 0 {
        0
    } else {
        dec_value(s.drop_last()) * 10 + digit_val(s.last())
    }
}

/// Whether a token is a number the machine can hold: nonempty, all
/// digits, and no larger than `usize::MAX`.
pub open spec fn numeric_token(s: Seq<char>) -> bool {
    s.len() > 0 && all_digits(s) && dec_value(s) <= usize::MAX
}

/// Whether every token is such a number.
pub open spec fn tokens_numeric(toks: Seq<Seq<char>>) -> bool {
    forall|i: int| 0 <= i < toks.len() ==> numeric_token(#[trigger] toks[i])
}

/// The numbers the tokens denote, in order.
pub open spec fn token_values(toks: Seq<Seq<char>>) -> Seq<usize> {
    toks.map_values(|t: Seq<char>| dec_value(t) as usize)
}

proof fn lemma_word_len_is(s: Seq<char>, m: int)
    requires
        0 <= m <= s.len(),
        forall|k: int| 0 <= k < m ==> s[k] != ' ',
        m == s.len() || s[m] == ' ',
    ensures
        word_len(s) == m,
    decreases s.len(),
{
    if m == 0 {
    } else {
        lemma_word_len_is(s.drop_first(), m - 1);
    }
}

proof fn lemma_trim_front_skip(s: Seq<char>, a: int)
    requires
        0 <= a <= s.len(),
        forall|k: int| 0 <= k < a ==> is_space_char(#[trigger] s[k]),
    ensures
        trim_front(s) == trim_front(s.skip(a)),
    decreases a,
{
    if a > 0 {
        assert(s.drop_first() =~= s.skip(1));
        lemma_trim_front_skip(s.skip(1), a - 1);
        assert(s.skip(1).skip(a - 1) =~= s.skip(a));
    } else {
        assert(s.skip(0) =~= s);
    }
}

proof fn lemma_trim_back_take(s: Seq<char>, b: int)
    requires
        0 <= b <= s.len(),
        forall|k: int| b <= k < s.len() ==> is_space_char(#[trigger] s[k]),
    ensures
        trim_back(s) == trim_back(s.take(b)),
    decreases s.len() - b,
{
    if b < s.len() {
        assert(is_space_char(s.last()));
        assert(s.drop_last() =~= s.take(s.len() - 1));
        lemma_trim_back_take(s.take(s.len() - 1), b);
        assert(s.take(s.len() - 1).take(b) =~= s.take(b));
    } else {
        assert(s.take(s.len() as int) =~= s);
    }
}

fn is_space(c: char) -> (r: bool)
    ensures
        r == is_space_char(c),
{
    c == ' ' || c == '\t' || c == '\n' || c == '\r'
}

/// The line without whitespace at either end, as [`spec_trim`] gives it.
pub fn trim_line(s: &str) -> (r: String)
    ensures
        r@ == spec_trim(s@),
{
    let len = s.unicode_len();
    let mut a: usize = 0;
    while a < len
        invariant
            a <= len,
            len == s@.len(),
            forall|k: int| 0 <= k < a ==> is_space_char(#[trigger] s@[k]),
        ensures
            a <= len,
            len == s@.len(),
            forall|k: int| 0 <= k < a ==> is_space_char(#[trigger] s@[k]),
            a == len || !is_space_char(s@[a as int]),
        decreases len - a,
    {
        if !is_space(s.get_char(a)) {
            break ;
        }
        a = a + 1;
    }
    let mut b: usize = len;
    while b > a
        invariant
            a <= b <= len,
            len == s@.len(),
            forall|k: int| b <= k < len ==> is_space_char(#[trigger] s@[k]),
        ensures
            a <= b <= len,
            len == s@.len(),
            forall|k: int| b <= k < len ==> is_space_char(#[trigger] s@[k]),
            b == a || !is_space_char(s@[b - 1]),
        decreases b,
    {
        if !is_space(s.get_char(b - 1)) {
            break ;
        }
        b = b - 1;
    }
    proof {
        lemma_trim_front_skip(s@, a as int);
        if a == len {
            assert(s@.skip(a as int) =~= Seq::<char>::empty());
        }
        assert(trim_front(s@.skip(a as int)) == s@.skip(a as int));
        lemma_trim_back_take(s@.skip(a as int), b - a);
        assert(s@.skip(a as int).take(b - a) =~= s@.subrange(a as int, b as int));
        assert(trim_back(s@.subrange(a as int, b as int)) == s@.subrange(a as int, b as int));
    }
    s.substring_char(a, b).to_owned()
}

/// The command word and the remainder of a line, as [`spec_word`] and
/// [`spec_rest`] give them.
pub fn split_word(s: &String) -> (r: (String, String))
    ensures
        r.0@ == spec_word(s@),
        r.1@ == spec_rest(s@),
{
    let len = s.as_str().unicode_len();
    let mut i: usize = 0;
    while i < len
        invariant
            i <= len,
            len == s@.len(),
            forall|k: int| 0 <= k < i ==> s@[k] != ' ',
        ensures
            i <= len,
            len == s@.len(),
            forall|k: int| 0 <= k < i ==> s@[k] != ' ',
            i == len || s@[i as int] == ' ',
        decreases len - i,
    {
        if s.as_str().get_char(i) == ' ' {
            break ;
        }
        i = i + 1;
    }
    proof {
        lemma_word_len_is(s@, i as int);
    }
    let word = s.as_str().substring_char(0, i).to_owned();
    let rest = if i < len {
        s.as_str().substring_char(i + 1, len).to_owned()
    } else {
        String::new()
    };
    proof {
        assert(s@.subrange(0, i as int) =~= s@.take(i as int));
        if i < len {
            assert(s@.subrange(i + 1, len as int) =~= s@.skip(i + 1));
        }
    }
    (word, rest)
}

proof fn lemma_dec_value_nonneg(s: Seq<char>)
    requires
        all_digits(s),
    ensures
        dec_value(s) >= 0,
    decreases s.len(),
{
    if s.len() > 0 {
        assert(all_digits(s.drop_last()));
        lemma_dec_value_nonneg(s.drop_last());
    }
}

proof fn lemma_dec_value_take_mono(s: Seq<char>, i: int)
    requires
        0 <= i <= s.len(),
        all_digits(s),
    ensures
        dec_value(s.take(i)) <= dec_value(s),
    decreases s.len() - i,
{
    if i < s.len() {
        assert(s.take(i + 1).drop_last() =~= s.take(i));
        assert(all_digits(s.take(i)));
        lemma_dec_value_nonneg(s.take(i));
        assert(is_digit_char(s[i]));
        assert(dec_value(s.take(i + 1)) == dec_value(s.take(i)) * 10 + digit_val(s[i]));
        lemma_dec_value_take_mono(s, i + 1);
    } else {
        assert(s.take(i) =~= s);
    }
}

/// Parses one token as a decimal number: `Some` exactly on the nonempty
/// all-digit tokens whose value fits a `usize`, with that value.
pub fn parse_usize(s: &str) -> (r: Option<usize>)
    ensures
        match r {
            Some(n) => numeric_token(s@) && n == dec_value(s@),
            None => !numeric_token(s@),
        },
{
    let len = s.unicode_len();
    if len == 0 {
        return None;
    }
    let mut acc: usize = 0;
    let mut i: usize = 0;
    while i < len
        invariant
            i <= len,
            len == s@.len(),
            all_digits(s@.take(i as int)),
            acc == dec_value(s@.take(i as int)),
        decreases len - i,
    {
        let u = s.get_char(i) as u32;
        if u < 48 || u > 57 {
            proof {
                assert(!is_digit_char(s@[i as int]));
            }
            return None;
        }
        let d = (u - 48) as usize;
        proof {
            assert(s@.take(i + 1).drop_last() =~= s@.take(i as int));
            assert(s@.take(i + 1).last() == s@[i as int]);
            assert(all_digits(s@.take(i + 1)));
            assert(dec_value(s@.take(i + 1)) == acc * 10 + digit_val(s@[i as int]));
        }
        let limit = usize::MAX / 10;
        if acc > limit || (d > usize::MAX - acc * 10) {
            proof {
                vstd::arithmetic::div_mod::lemma_fundamental_div_mod(usize::MAX as int, 10);
                assert(dec_value(s@.take(i + 1)) > usize::MAX);
                if all_digits(s@) {
                    lemma_dec_value_take_mono(s@, i + 1);
                    assert(dec_value(s@) > usize::MAX);
                }
            }
            return None;
        }
        proof {
            vstd::arithmetic::div_mod::lemma_fundamental_div_mod(usize::MAX as int, 10);
        }
        acc = acc * 10 + d;
        i = i + 1;
    }
    proof {
        assert(s@.take(len as int) =~= s@);
    }
    Some(acc)
}

fn scan_token_end(s: &str, start: usize) -> (j: usize)
    requires
        start <= s@.len(),
    ensures
        start <= j <= s@.len(),
        forall|k: int| start <= k < j ==> s@[k] != ' ',
        j == s@.len() || s@[j as int] == ' ',
{
    let len = s.unicode_len();
    let mut j = start;
    while j < len
        invariant
            start <= j <= len,
            len == s@.len(),
            forall|k: int| start <= k < j ==> s@[k] != ' ',
        ensures
            start <= j <= len,
            len == s@.len(),
            forall|k: int| start <= k < j ==> s@[k] != ' ',
            j == len || s@[j as int] == ' ',
        decreases len - j,
    {
        if s.get_char(j) == ' ' {
            break ;
        }
        j = j + 1;
    }
    j
}

/// Parses the argument tokens of a `remove` command: the numbers of all
/// tokens when every token is numeric, and a rejected-input report as soon
/// as one is not.
pub fn parse_ids(s: &str) -> (r: Result<Vec<usize>, TodoError>)
    ensures
        match r {
            Ok(v) => tokens_numeric(spec_tokens(s@)) && v@ == token_values(spec_tokens(s@)),
            Err(e) => !tokens_numeric(spec_tokens(s@)) && e == TodoError::InvalidNumber,
        },
{
    let len = s.unicode_len();
    let mut out: Vec<usize> = Vec::new();
    let ghost mut done: Seq<Seq<char>> = Seq::empty();
    let mut i: usize = 0;
    proof {
        assert(s@.skip(0) =~= s@);
        assert(Seq::<Seq<char>>::empty() + spec_tokens(s@) =~= spec_tokens(s@));
        assert(out@ =~= token_values(done));
    }
    while i < len
        invariant
            i <= len,
            len == s@.len(),
            spec_tokens(s@) == done + spec_tokens(s@.skip(i as int)),
            tokens_numeric(done),
            out@ == token_values(done),
        decreases len - i,
    {
        if s.get_char(i) == ' ' {
            proof {
                assert(s@.skip(i as int).drop_first() =~= s@.skip(i + 1));
                assert(spec_tokens(s@.skip(i as int)) == spec_tokens(s@.skip(i + 1)));
            }
            i = i + 1;
        } else {
            let j = scan_token_end(s, i);
            proof {
                lemma_word_len_is(s@.skip(i as int), j - i);
                assert(s@.skip(i as int).take(j - i) =~= s@.subrange(i as int, j as int));
                assert(s@.skip(i as int).skip(j - i) =~= s@.skip(j as int));
                assert(spec_tokens(s@.skip(i as int)) == seq![s@.subrange(i as int, j as int)]
                    + spec_tokens(s@.skip(j as int)));
            }
            let tok = s.substring_char(i, j);
            match parse_usize(tok) {
                None => {
                    proof {
                        let toks = spec_tokens(s@);
                        assert(toks == done + (seq![tok@] + spec_tokens(s@.skip(j as int))));
                        assert(toks[done.len() as int] == tok@);
                        assert(!numeric_token(toks[done.len() as int]));
                    }
                    return Err(TodoError::InvalidNumber);
                },
                Some(n) => {
                    out.push(n);
                    proof {
                        let ghost old_done = done;
                        done = done.push(tok@);
                        assert(done =~= old_done + seq![tok@]);
                        assert((old_done + seq![tok@]) + spec_tokens(s@.skip(j as int))
                            =~= old_done + (seq![tok@] + spec_tokens(s@.skip(j as int))));
                        assert(token_values(done) =~= token_values(old_done).push(
                            dec_value(tok@) as usize,
                        ));
                    }
                    i = j;
                },
            }
        }
    }
    proof {
        assert(s@.skip(len as int) =~= Seq::<char>::empty());
        assert(spec_tokens(s@) == done + Seq::<Seq<char>>::empty());
        assert(done + Seq::<Seq<char>>::empty() =~= done);
    }
    Ok(out)
}

/// Handles one input line against the list, as the command loop does: it
/// trims the line, reads the command word, mutates the list for `add` and
/// `remove`, and returns the action that remains for the caller.
pub fn parse_input(list: &mut TodoList, line: &str) -> (r: Action)
    requires
        old(list).wf(),
        old(list).list@.len() + 2 <= usize::MAX,
    ensures
        final(list).wf(),
        spec_word(spec_trim(line@)) == "list"@ ==> {
            &&& *final(list) == *old(list)
            &&& match r {
                Action::Show(v) => v@ == old(list).list@,
                _ => false,
            }
        },
        spec_word(spec_trim(line@)) == "add"@ ==> {
            &&& r == Action::Done
            &&& final(list)@.items.len() == old(list)@.items.len() + 1
            &&& final(list)@.items.take(old(list)@.items.len() as int) =~= old(list)@.items
            &&& final(list)@.items.last().id == old(list)@.next_id
            &&& final(list)@.items.last().content == spec_rest(spec_trim(line@))
            &&& final(list)@.next_id == old(list)@.next_id + 1
        },
        spec_word(spec_trim(line@)) == "remove"@ ==> {
            let toks = spec_tokens(spec_rest(spec_trim(line@)));
            let vals = token_values(toks);
            if !tokens_numeric(toks) {
                r == Action::Rejected(TodoError::InvalidNumber) && *final(list) == *old(list)
            } else if forall|j: int|
                0 <= j < vals.len() ==> 1 <= #[trigger] vals[j] <= old(list)@.items.len() {
                r == Action::Done && final(list)@.items =~= renumber(
                    remove_positions(old(list)@.items, position_set(vals)),
                )
            } else {
                r == Action::Rejected(TodoError::IdOutOfRange) && *final(list) == *old(list)
            }
        },
        spec_word(spec_trim(line@)) == "save"@ ==> {
            r == Action::Persist && *final(list) == *old(list)
        },
        spec_word(spec_trim(line@)) == "quit"@ ==> {
            r == Action::PersistAndQuit && *final(list) == *old(list)
        },
        spec_word(spec_trim(line@)) != "list"@ && spec_word(spec_trim(line@)) != "add"@
            && spec_word(spec_trim(line@)) != "remove"@ && spec_word(spec_trim(line@))
            != "save"@ && spec_word(spec_trim(line@)) != "quit"@ ==> {
            r == Action::Usage && *final(list) == *old(list)
        },
{
    proof {
        reveal_strlit("list");
        reveal_strlit("add");
        reveal_strlit("remove");
        reveal_strlit("save");
        reveal_strlit("quit");
        assert("list"@.len() == 4);
        assert("add"@.len() == 3);
        assert("remove"@.len() == 6);
        assert("save"@.len() == 4);
        assert("quit"@.len() == 4);
        assert("list"@[0] == 'l');
        assert("save"@[0] == 's');
        assert("quit"@[0] == 'q');
    }
    let trimmed = trim_line(line);
    let (word, rest) = split_word(&trimmed);
    if word == "list".to_owned() {
        Action::Show(list.list_items())
    } else if word == "add".to_owned() {
        list.add_item(rest);
        Action::Done
    } else if word == "remove".to_owned() {
        match parse_ids(rest.as_str()) {
            Err(e) => Action::Rejected(e),
            Ok(ids) => match list.remove_items(&ids) {
                Ok(()) => Action::Done,
                Err(e) => Action::Rejected(e),
            },
        }
    } else if word == "save".to_owned() {
        Action::Persist
    } else if word == "quit".to_owned() {
        Action::PersistAndQuit
    } else {
        Action::Usage
    }
}

} // verus!
