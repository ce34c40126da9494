//! The title of a LilyPond source. It is found in the text, without rendering: the text is
//! taken apart into tokens, and the first title that a `\header` block assigns is the title.

use vstd::prelude::*;
use vstd::slice::slice_subrange;

use crate::path::text_view;
use crate::text::{chars_of, find, find_line_feed, string_of};
use crate::text::{find_text, lemma_line_feed, line_feed, white_space};

verus! {

/// A token of a LilyPond text. White space and comments separate tokens and are none.
pub enum Token {
    /// A backslash and a name, such as `\header`; the name is held.
    Command(String),
    Word(String),
    /// A text in quotation marks, with escapes resolved.
    Text(String),
    Open,
    Close,
    Equals,
    /// Any other character.
    Sign(char),
}

/// What a [`Token`] holds.
pub enum TokenView {
    Command(Seq<char>),
    Word(Seq<char>),
    Text(Seq<char>),
    Open,
    Close,
    Equals,
    Sign(char),
}

impl View for Token {
    type V = TokenView;

    open spec fn view(&self) -> TokenView {
        match self {
            Token::Command(s) => TokenView::Command(s@),
            Token::Word(s) => TokenView::Word(s@),
            Token::Text(s) => TokenView::Text(s@),
            Token::Open => TokenView::Open,
            Token::Close => TokenView::Close,
            Token::Equals => TokenView::Equals,
            Token::Sign(c) => TokenView::Sign(*c),
        }
    }
}

/// What a list of tokens holds.
pub open spec fn token_views(tokens: Seq<Token>) -> Seq<TokenView> {
    tokens.map_values(|t: Token| t@)
}

/// The contents of an optional token.
pub open spec fn token_view(token: Option<Token>) -> Option<TokenView> {
    match token {
        Some(t) => Some(t@),
        None => None,
    }
}

/// A letter of a word: an ASCII letter, or any character beyond ASCII that is no white space.
pub open spec fn is_letter(c: char) -> bool {
    ||| 'a' <= c <= 'z'
    ||| 'A' <= c <= 'Z'
    ||| c as u32 >= 0x80 && !white_space(c)
}

/// A character that may stand between the letters of a word.
pub open spec fn is_joint(c: char) -> bool {
    c == '-' || c == '_'
}

/// How many characters at the beginning of a text belong to a word that has begun before it:
/// letters, and single hyphens or underscores with a letter behind them.
pub open spec fn word_tail(s: Seq<char>) -> nat
    decreases s.len(),
{
    if s.len() > 0 && is_letter(s[0]) {
        1 + word_tail(s.skip(1))
    } else if s.len() > 1 && is_joint(s[0]) && is_letter(s[1]) {
        2 + word_tail(s.skip(2))
    } else {
        0
    }
}

/// How long the comment is that a text begins with: `%{` opens one that lasts to the next `%}`,
/// and any other `%` one that lasts to the end of the line.
pub open spec fn comment_len(s: Seq<char>) -> nat {
    if s.len() > 1 && s[1] == '{' {
        match find_text(s.skip(2), seq!['%', '}'], 0) {
            Some(end) => 4 + (end as nat),
            None => s.len(),
        }
    } else {
        1 + line_feed(s.skip(1))
    }
}

/// A character that stands for itself, or for a line feed or a tabulator, behind a backslash.
pub open spec fn is_escape(c: char) -> bool {
    c == 'n' || c == 't' || c == '\\' || c == '\'' || c == '"'
}

/// What a character behind a backslash stands for.
pub open spec fn escaped(c: char) -> char {
    if c == 'n' {
        '\n'
    } else if c == 't' {
        '\t'
    } else {
        c
    }
}

/// Whether a text has an escape at a place.
pub open spec fn escapes(s: Seq<char>, i: int) -> bool {
    s[i] == '\\' && i + 1 < s.len() && is_escape(s[i + 1])
}

/// Where the quotation mark stands that closes a quoted text, looked for from place `i` on.
pub open spec fn quote_end(s: Seq<char>, i: nat) -> Option<nat>
    decreases s.len() - i,
{
    if i >= s.len() {
        None
    } else if s[i as int] == '"' {
        Some(i)
    } else if escapes(s, i as int) {
        quote_end(s, i + 2)
    } else {
        quote_end(s, i + 1)
    }
}

/// What stands between quotation marks, from place `i` on, with escapes resolved.
pub open spec fn unescaped(s: Seq<char>, i: nat) -> Seq<char>
    decreases s.len() - i,
{
    if i >= s.len() {
        seq![]
    } else if escapes(s, i as int) {
        seq![escaped(s[i as int + 1])] + unescaped(s, i + 2)
    } else {
        seq![s[i as int]] + unescaped(s, i + 1)
    }
}

/// How long the first token, white space or comment of a text is, and which token it is. A
/// quoted text that is not closed takes up the rest.
pub open spec fn first_token(s: Seq<char>) -> (nat, Option<TokenView>) {
    let c = s[0];
    if white_space(c) {
        (1, None)
    } else if c == '%' {
        (comment_len(s), None)
    } else if c == '"' {
        match quote_end(s, 1) {
            Some(end) => (end + 1, Some(TokenView::Text(unescaped(s.subrange(1, end as int), 0)))),
            None => (s.len(), None),
        }
    } else if c == '\\' && s.len() > 1 && is_letter(s[1]) {
        let n = 2 + word_tail(s.skip(2));
        (n, Some(TokenView::Command(s.subrange(1, n as int))))
    } else if is_letter(c) {
        let n = 1 + word_tail(s.skip(1));
        (n, Some(TokenView::Word(s.take(n as int))))
    } else if c == '{' {
        (1, Some(TokenView::Open))
    } else if c == '}' {
        (1, Some(TokenView::Close))
    } else if c == '=' {
        (1, Some(TokenView::Equals))
    } else {
        (1, Some(TokenView::Sign(c)))
    }
}

/// The tokens of a text, from place `i` on.
pub open spec fn tokens_from(s: Seq<char>, i: nat) -> Seq<TokenView>
    decreases (if i < s.len() { s.len() - i } else { 0 }),
{
    if i >= s.len() {
        seq![]
    } else {
        let (n, token) = first_token(s.skip(i as int));
        let rest = tokens_from(s, i + n);
        match token {
            Some(t) => seq![t] + rest,
            None => rest,
        }
    }
}

/// Whether a token is the name of the title field.
pub open spec fn names_title(token: TokenView) -> bool {
    token == TokenView::Word("title"@) || token == TokenView::Text("title"@)
}

/// Where the value of the first title stands that a `\header` block assigns, looked for from
/// place `i` on. `depth` counts the braces that are open in a `\header` block, its own among
/// them; outside of such a block it is zero.
pub open spec fn title_place(tokens: Seq<TokenView>, i: nat, depth: nat) -> Option<nat>
    decreases tokens.len() - i,
{
    if i >= tokens.len() {
        None
    } else {
        let token = tokens[i as int];
        let next = if i + 1 < tokens.len() { Some(tokens[i as int + 1]) } else { None };
        if depth == 0 {
            if token == TokenView::Command("header"@) && next == Some(TokenView::Open) {
                title_place(tokens, i + 2, 1)
            } else {
                title_place(tokens, i + 1, 0)
            }
        } else if token is Open {
            title_place(tokens, i + 1, depth + 1)
        } else if token is Close {
            title_place(tokens, i + 1, (depth - 1) as nat)
        } else if depth == 1 && names_title(token) && next == Some(TokenView::Equals) {
            Some(i + 2)
        } else {
            title_place(tokens, i + 1, depth)
        }
    }
}

/// The plain text that stands at a place: a quoted text, also behind the `#` of Scheme, or a
/// single word. Markup, which has to be engraved, is none.
pub open spec fn plain_text(tokens: Seq<TokenView>, i: int) -> Option<Seq<char>> {
    if 0 <= i < tokens.len() {
        match tokens[i] {
            TokenView::Text(text) => Some(text),
            TokenView::Word(word) => Some(word),
            TokenView::Sign('#') => if i + 1 < tokens.len() {
                match tokens[i + 1] {
                    TokenView::Text(text) => Some(text),
                    _ => None,
                }
            } else {
                None
            },
            _ => None,
        }
    } else {
        None
    }
}

/// The title that the `\header` block of a LilyPond text gives, if it gives one: the first one
/// that is assigned, if it is plain text.
pub open spec fn header_title(source: Seq<char>) -> Option<Seq<char>> {
    let tokens = tokens_from(source, 0);
    match title_place(tokens, 0, 0) {
        Some(place) => plain_text(tokens, place as int),
        None => None,
    }
}

/// A quoted text without quotation marks and backslashes ends where it seems to end, and is
/// meant as it stands.
proof fn lemma_plain_quote(s: Seq<char>, text: Seq<char>, i: nat)
    requires
        !text.contains('"'),
        !text.contains('\\'),
        i <= text.len(),
        s.len() > text.len() + 1,
        s.subrange(1, text.len() as int + 1) == text,
        s[text.len() as int + 1] == '"',
    ensures
        quote_end(s, 1 + i) == Some(1 + text.len()),
        unescaped(text, i) == text.skip(i as int),
    decreases text.len() - i,
{
    if i < text.len() {
        assert(text.contains(text[i as int]));
        assert(s[i as int + 1] == text[i as int]);
        lemma_plain_quote(s, text, i + 1);
        assert(text.skip(i as int) =~= seq![text[i as int]] + text.skip(i as int + 1));
    } else {
        assert(text.skip(i as int) =~= seq![]);
    }
}

/// A title that is written into a header is read back. It holds neither quotation marks nor
/// backslashes.
pub proof fn law_written_title_read(title: Seq<char>)
    requires
        !title.contains('"'),
        !title.contains('\\'),
    ensures
        header_title("\\header { title = \""@ + title + "\" }"@) == Some(title),
{
    let front = "\\header { title = \""@;
    let back = "\" }"@;
    let s = front + title + back;
    reveal_strlit("\\header { title = \"");
    reveal_strlit("\" }");
    reveal_strlit("header");
    reveal_strlit("title");
    let n = title.len();
    reveal_with_fuel(word_tail, 7);
    assert(s.skip(0).subrange(1, 7) =~= "header"@);
    assert(first_token(s.skip(0)) == (7nat, Some(TokenView::Command("header"@))));
    assert(first_token(s.skip(7)) == (1nat, None::<TokenView>));
    assert(first_token(s.skip(8)) == (1nat, Some(TokenView::Open)));
    assert(first_token(s.skip(9)) == (1nat, None::<TokenView>));
    assert(s.skip(10).take(5) =~= "title"@);
    assert(first_token(s.skip(10)) == (5nat, Some(TokenView::Word("title"@))));
    assert(first_token(s.skip(15)) == (1nat, None::<TokenView>));
    assert(first_token(s.skip(16)) == (1nat, Some(TokenView::Equals)));
    assert(first_token(s.skip(17)) == (1nat, None::<TokenView>));
    let quoted = s.skip(18);
    assert(quoted.subrange(1, n as int + 1) =~= title);
    lemma_plain_quote(quoted, title, 0);
    assert(title.skip(0) =~= title);
    assert(first_token(quoted) == (n + 2, Some(TokenView::Text(title))));
    let rest = tokens_from(s, 20 + n);
    assert(tokens_from(s, 18) == seq![TokenView::Text(title)] + rest);
    assert(tokens_from(s, 17) == tokens_from(s, 18));
    assert(tokens_from(s, 16) == seq![TokenView::Equals] + tokens_from(s, 17));
    assert(tokens_from(s, 15) == tokens_from(s, 16));
    assert(tokens_from(s, 10) == seq![TokenView::Word("title"@)] + tokens_from(s, 15));
    assert(tokens_from(s, 9) == tokens_from(s, 10));
    assert(tokens_from(s, 8) == seq![TokenView::Open] + tokens_from(s, 9));
    assert(tokens_from(s, 7) == tokens_from(s, 8));
    assert(tokens_from(s, 0) == seq![TokenView::Command("header"@)] + tokens_from(s, 7));
    let all = tokens_from(s, 0);
    assert(all[0] == TokenView::Command("header"@));
    assert(all[1] == TokenView::Open);
    assert(all[2] == TokenView::Word("title"@));
    assert(all[3] == TokenView::Equals);
    assert(all[4] == TokenView::Text(title));
    assert(title_place(all, 2, 1) == Some(4nat));
    assert(title_place(all, 0, 0) == Some(4nat));
}

/// Whether a character is a letter of a word.
fn letter(c: char) -> (r: bool)
    ensures
        r == is_letter(c),
{
    ('a' <= c && c <= 'z') || ('A' <= c && c <= 'Z') || (c as u32 >= 0x80 && !c.is_whitespace())
}

/// Where the word ends that has begun before place `from`.
fn word_end(s: &[char], from: usize) -> (end: usize)
    requires
        from <= s@.len(),
    ensures
        from <= end <= s@.len(),
        end == from + word_tail(s@.skip(from as int)),
{
    let len: usize = s.len();
    let mut n: usize = from;
    while n < len && (letter(s[n]) || (len - n > 1 && (s[n] == '-' || s[n] == '_') && letter(s[n + 1])))
        invariant
            len == s@.len(),
            from <= n <= s@.len(),
            n + word_tail(s@.skip(n as int)) == from + word_tail(s@.skip(from as int)),
        decreases s@.len() - n,
    {
        let ghost rest = s@.skip(n as int);
        assert(rest.skip(1) =~= s@.skip(n + 1));
        if letter(s[n]) {
            n += 1;
        } else {
            assert(rest.skip(2) =~= s@.skip(n + 2));
            n += 2;
        }
    }
    n
}

/// How long the comment is that a text begins with.
fn skip_comment(s: &[char]) -> (n: usize)
    requires
        s@.len() > 0,
    ensures
        n == comment_len(s@),
        n <= s@.len(),
{
    if s.len() > 1 && s[1] == '{' {
        let rest = slice_subrange(s, 2, s.len());
        assert(rest@ =~= s@.skip(2));
        let end: Vec<char> = vec!['%', '}'];
        assert(end@ =~= seq!['%', '}']);
        match find(rest, end.as_slice()) {
            Some(i) => i + 4,
            None => s.len(),
        }
    } else {
        find_line_feed(s, 1)
    }
}

/// Whether a text has an escape at a place.
fn has_escape(s: &[char], i: usize) -> (r: bool)
    requires
        i < s@.len(),
    ensures
        r == escapes(s@, i as int),
{
    if s[i] != '\\' || i == s.len() - 1 {
        return false;
    }
    let c = s[i + 1];
    c == 'n' || c == 't' || c == '\\' || c == '\'' || c == '"'
}

/// Finds the quotation mark that closes a quoted text.
fn find_quote(s: &[char]) -> (end: Option<usize>)
    requires
        s@.len() > 0,
    ensures
        match end {
            Some(i) => quote_end(s@, 1) == Some(i as nat) && 1 <= i < s@.len(),
            None => quote_end(s@, 1) is None,
        },
{
    let mut i: usize = 1;
    while i < s.len()
        invariant
            1 <= i <= s@.len(),
            quote_end(s@, i as nat) == quote_end(s@, 1),
        decreases s@.len() - i,
    {
        if s[i] == '"' {
            return Some(i);
        }
        if has_escape(s, i) {
            i += 2;
        } else {
            i += 1;
        }
    }
    None
}

/// Resolves the escapes in what stands between quotation marks.
fn unescape(s: &[char]) -> (text: String)
    ensures
        text@ == unescaped(s@, 0),
{
    let mut text = String::new();
    let mut i: usize = 0;
    assert(text@ + unescaped(s@, 0) =~= unescaped(s@, 0));
    while i < s.len()
        invariant
            i <= s@.len(),
            text@ + unescaped(s@, i as nat) == unescaped(s@, 0),
        decreases s@.len() - i,
    {
        let ghost before = text@;
        if has_escape(s, i) {
            let c = s[i + 1];
            let e: char = if c == 'n' {
                '\n'
            } else if c == 't' {
                '\t'
            } else {
                c
            };
            text.push(e);
            assert(text@ + unescaped(s@, (i + 2) as nat) =~= before + unescaped(s@, i as nat));
            i += 2;
        } else {
            text.push(s[i]);
            assert(text@ + unescaped(s@, (i + 1) as nat) =~= before + unescaped(s@, i as nat));
            i += 1;
        }
    }
    assert(text@ + unescaped(s@, i as nat) =~= text@);
    text
}

/// Reads the first token, white space or comment of a text, and tells how long it is.
fn read_token(s: &[char]) -> (r: (usize, Option<Token>))
    requires
        s@.len() > 0,
    ensures
        (r.0 as nat, token_view(r.1)) == first_token(s@),
        0 < r.0 <= s@.len(),
{
    let c = s[0];
    if c.is_whitespace() {
        (1, None)
    } else if c == '%' {
        (skip_comment(s), None)
    } else if c == '"' {
        match find_quote(s) {
            Some(end) => (end + 1, Some(Token::Text(unescape(slice_subrange(s, 1, end))))),
            None => (s.len(), None),
        }
    } else if c == '\\' && s.len() > 1 && letter(s[1]) {
        let n = word_end(s, 2);
        (n, Some(Token::Command(string_of(slice_subrange(s, 1, n)))))
    } else if letter(c) {
        let n = word_end(s, 1);
        assert(s@.subrange(0, n as int) =~= s@.take(n as int));
        (n, Some(Token::Word(string_of(slice_subrange(s, 0, n)))))
    } else if c == '{' {
        (1, Some(Token::Open))
    } else if c == '}' {
        (1, Some(Token::Close))
    } else if c == '=' {
        (1, Some(Token::Equals))
    } else {
        (1, Some(Token::Sign(c)))
    }
}

/// Takes a text apart into its tokens.
pub fn tokens(s: &[char]) -> (list: Vec<Token>)
    ensures
        token_views(list@) == tokens_from(s@, 0),
{
    let mut list: Vec<Token> = Vec::new();
    let mut i: usize = 0;
    assert(token_views(list@) + tokens_from(s@, 0) =~= tokens_from(s@, 0));
    while i < s.len()
        invariant
            i <= s@.len(),
            token_views(list@) + tokens_from(s@, i as nat) == tokens_from(s@, 0),
        decreases s@.len() - i,
    {
        let ghost before = token_views(list@);
        let rest = slice_subrange(s, i, s.len());
        assert(rest@ =~= s@.skip(i as int));
        let (n, token) = read_token(rest);
        let ghost more = tokens_from(s@, (i + n) as nat);
        if let Some(t) = token {
            list.push(t);
            assert(token_views(list@) =~= before.push(t@));
            assert(before + (seq![t@] + more) =~= token_views(list@) + more);
        }
        i += n;
    }
    assert(token_views(list@) + tokens_from(s@, i as nat) =~= token_views(list@));
    list
}

/// Whether a token is the command that opens a header.
fn is_header(token: &Token) -> (r: bool)
    ensures
        r == (token@ == TokenView::Command("header"@)),
{
    match token {
        Token::Command(name) => *name == String::from_str("header"),
        _ => false,
    }
}

/// Whether a token is the name of the title field.
fn is_title(token: &Token) -> (r: bool)
    ensures
        r == names_title(token@),
{
    match token {
        Token::Word(name) => *name == String::from_str("title"),
        Token::Text(name) => *name == String::from_str("title"),
        _ => false,
    }
}

/// Finds where the value of the first title stands that a header assigns.
fn find_title(list: &Vec<Token>) -> (place: Option<usize>)
    ensures
        match place {
            Some(i) => title_place(token_views(list@), 0, 0) == Some(i as nat),
            None => title_place(token_views(list@), 0, 0) is None,
        },
{
    let ghost tv = token_views(list@);
    let len: usize = list.len();
    let mut depth: usize = 0;
    let mut i: usize = 0;
    while i < len
        invariant
            len == list@.len(),
            tv == token_views(list@),
            i <= len,
            depth <= i,
            title_place(tv, i as nat, depth as nat) == title_place(tv, 0, 0),
        decreases len - i,
    {
        let token = &list[i];
        assert(tv[i as int] == token@);
        let last: bool = i == len - 1;
        assert(!last ==> tv[i + 1] == list@[i + 1]@);
        if depth == 0 {
            let opens: bool = !last && is_header(token) && matches!(list[i + 1], Token::Open);
            if opens {
                depth = 1;
                i += 2;
            } else {
                i += 1;
            }
        } else {
            match token {
                Token::Open => {
                    depth += 1;
                },
                Token::Close => {
                    depth -= 1;
                },
                _ => {
                    if depth == 1 && !last && is_title(token) && matches!(list[i + 1], Token::Equals) {
                        return Some(i + 2);
                    }
                },
            }
            i += 1;
        }
    }
    None
}

/// Reads the plain text that stands at a place.
fn read_plain(list: &Vec<Token>, i: usize) -> (text: Option<String>)
    ensures
        text_view(text) == plain_text(token_views(list@), i as int),
{
    if i >= list.len() {
        return None;
    }
    assert(token_views(list@)[i as int] == list@[i as int]@);
    match &list[i] {
        Token::Text(text) => Some(text.clone()),
        Token::Word(word) => Some(word.clone()),
        Token::Sign(c) => {
            if *c != '#' || i == list.len() - 1 {
                return None;
            }
            assert(token_views(list@)[i + 1] == list@[i + 1]@);
            match &list[i + 1] {
                Token::Text(text) => Some(text.clone()),
                _ => None,
            }
        },
        _ => None,
    }
}

/// Finds the title that the `\header` block of a LilyPond text gives.
pub fn lilypond_title(source: &str) -> (title: Option<String>)
    ensures
        text_view(title) == header_title(source@),
{
    let chars = chars_of(source);
    let list = tokens(chars.as_slice());
    match find_title(&list) {
        Some(place) => read_plain(&list, place),
        None => None,
    }
}

/// Tokens depend on what follows only.
proof fn lemma_tokens_shift(a: Seq<char>, s: Seq<char>, i: nat)
    ensures
        tokens_from(a + s, a.len() + i) == tokens_from(s, i),
    decreases (if i < s.len() { s.len() - i } else { 0 }),
{
    if i < s.len() {
        assert((a + s).skip((a.len() + i) as int) =~= s.skip(i as int));
        let n = first_token(s.skip(i as int)).0;
        lemma_tokens_shift(a, s, i + n);
    }
}

/// The tokens of a text are its first one and those of the rest.
proof fn lemma_first_of(piece: Seq<char>, rest: Seq<char>, token: Option<TokenView>)
    requires
        piece.len() > 0,
        first_token(piece + rest) == (piece.len(), token),
    ensures
        tokens_from(piece + rest, 0) == match token {
            Some(t) => seq![t] + tokens_from(rest, 0),
            None => tokens_from(rest, 0),
        },
{
    let s = piece + rest;
    assert(s.skip(0) =~= s);
    lemma_tokens_shift(piece, rest, 0);
}

/// Whether a text is a word of ASCII letters.
pub open spec fn is_word(s: Seq<char>) -> bool {
    s.len() > 0 && forall|i: int| 0 <= i < s.len() ==> 'a' <= #[trigger] s[i] <= 'z' || 'A' <= s[i] <= 'Z'
}

/// A word goes on to its end.
proof fn lemma_word_tail(word: Seq<char>, rest: Seq<char>)
    requires
        forall|i: int| 0 <= i < word.len() ==> 'a' <= #[trigger] word[i] <= 'z' || 'A' <= word[i] <= 'Z',
        rest.len() > 0 ==> !is_letter(rest[0]) && !is_joint(rest[0]),
    ensures
        word_tail(word + rest) == word.len(),
    decreases word.len(),
{
    let s = word + rest;
    if word.len() > 0 {
        assert('a' <= word[0] <= 'z' || 'A' <= word[0] <= 'Z');
        assert(s[0] == word[0]);
        let more = word.skip(1);
        assert(s.skip(1) =~= more + rest);
        assert forall|i: int| 0 <= i < more.len() implies 'a' <= #[trigger] more[i] <= 'z' || 'A' <= more[i] <= 'Z' by {
            assert(more[i] == word[i + 1]);
        }
        lemma_word_tail(more, rest);
    } else {
        assert(s =~= rest);
    }
}

/// A word is a token.
proof fn lemma_word_token(word: Seq<char>, rest: Seq<char>)
    requires
        is_word(word),
        rest.len() > 0 ==> !is_letter(rest[0]) && !is_joint(rest[0]),
    ensures
        tokens_from(word + rest, 0) == seq![TokenView::Word(word)] + tokens_from(rest, 0),
{
    let s = word + rest;
    let more = word.skip(1);
    assert(s[0] == word[0]);
    assert('a' <= word[0] <= 'z' || 'A' <= word[0] <= 'Z');
    assert(s.skip(1) =~= more + rest);
    assert forall|i: int| 0 <= i < more.len() implies 'a' <= #[trigger] more[i] <= 'z' || 'A' <= more[i] <= 'Z' by {
        assert(more[i] == word[i + 1]);
    }
    lemma_word_tail(more, rest);
    assert(s.take(word.len() as int) =~= word);
    lemma_first_of(word, rest, Some(TokenView::Word(word)));
}

/// A command is a token.
proof fn lemma_command_token(name: Seq<char>, rest: Seq<char>)
    requires
        is_word(name),
        rest.len() > 0 ==> !is_letter(rest[0]) && !is_joint(rest[0]),
    ensures
        tokens_from(seq!['\\'] + name + rest, 0) == seq![TokenView::Command(name)] + tokens_from(rest, 0),
{
    let piece = seq!['\\'] + name;
    let s = piece + rest;
    let more = name.skip(1);
    assert(s[0] == '\\' && s[1] == name[0]);
    assert('a' <= name[0] <= 'z' || 'A' <= name[0] <= 'Z');
    assert(s.skip(2) =~= more + rest);
    assert forall|i: int| 0 <= i < more.len() implies 'a' <= #[trigger] more[i] <= 'z' || 'A' <= more[i] <= 'Z' by {
        assert(more[i] == name[i + 1]);
    }
    lemma_word_tail(more, rest);
    assert(s.subrange(1, piece.len() as int) =~= name);
    lemma_first_of(piece, rest, Some(TokenView::Command(name)));
}

/// A single character that is white space or a token by itself.
proof fn lemma_char_token(c: char, rest: Seq<char>)
    ensures
        white_space(c) ==> tokens_from(seq![c] + rest, 0) == tokens_from(rest, 0),
        c == '{' ==> tokens_from(seq![c] + rest, 0) == seq![TokenView::Open] + tokens_from(rest, 0),
        c == '}' ==> tokens_from(seq![c] + rest, 0) == seq![TokenView::Close] + tokens_from(rest, 0),
        c == '=' ==> tokens_from(seq![c] + rest, 0) == seq![TokenView::Equals] + tokens_from(rest, 0),
{
    let s = seq![c] + rest;
    assert(s[0] == c);
    if white_space(c) {
        lemma_first_of(seq![c], rest, None);
    } else if c == '{' {
        lemma_first_of(seq![c], rest, Some(TokenView::Open));
    } else if c == '}' {
        lemma_first_of(seq![c], rest, Some(TokenView::Close));
    } else if c == '=' {
        lemma_first_of(seq![c], rest, Some(TokenView::Equals));
    }
}

/// A text as it is written between quotation marks: a backslash stands before quotation marks
/// and backslashes.
pub open spec fn written(text: Seq<char>) -> Seq<char>
    decreases text.len(),
{
    if text.len() == 0 {
        seq![]
    } else if text[0] == '"' || text[0] == '\\' {
        seq!['\\', text[0]] + written(text.skip(1))
    } else {
        seq![text[0]] + written(text.skip(1))
    }
}

/// A text in quotation marks.
pub open spec fn quoted(text: Seq<char>) -> Seq<char> {
    seq!['"'] + written(text) + seq!['"']
}

/// What is written between quotation marks ends at the closing one.
proof fn lemma_written_end(front: Seq<char>, text: Seq<char>, rest: Seq<char>)
    ensures
        quote_end(front + written(text) + seq!['"'] + rest, front.len()) == Some(front.len() + written(text).len()),
    decreases text.len(),
{
    let s = front + written(text) + seq!['"'] + rest;
    let n = front.len() as int;
    if text.len() > 0 {
        let c = text[0];
        let more = text.skip(1);
        if c == '"' || c == '\\' {
            let longer = front + seq!['\\', c];
            lemma_written_end(longer, more, rest);
            assert(s =~= longer + written(more) + seq!['"'] + rest);
            assert(s[n] == '\\' && s[n + 1] == c);
            assert(escapes(s, n));
        } else {
            let longer = front + seq![c];
            lemma_written_end(longer, more, rest);
            assert(s =~= longer + written(more) + seq!['"'] + rest);
            assert(s[n] == c);
        }
    } else {
        assert(s[n] == '"');
    }
}

/// What is written between quotation marks is meant as the text.
proof fn lemma_written_meant(front: Seq<char>, text: Seq<char>)
    ensures
        unescaped(front + written(text), front.len()) == text,
    decreases text.len(),
{
    let s = front + written(text);
    let n = front.len() as int;
    if text.len() > 0 {
        let c = text[0];
        let more = text.skip(1);
        assert(text =~= seq![c] + more);
        if c == '"' || c == '\\' {
            let longer = front + seq!['\\', c];
            lemma_written_meant(longer, more);
            assert(s =~= longer + written(more));
            assert(s[n] == '\\' && s[n + 1] == c);
            assert(escapes(s, n));
        } else {
            let longer = front + seq![c];
            lemma_written_meant(longer, more);
            assert(s =~= longer + written(more));
            assert(s[n] == c);
        }
    } else {
        assert(text =~= seq![]);
    }
}

/// A quoted text is a token.
proof fn lemma_quoted_token(text: Seq<char>, rest: Seq<char>)
    ensures
        tokens_from(quoted(text) + rest, 0) == seq![TokenView::Text(text)] + tokens_from(rest, 0),
{
    let s = quoted(text) + rest;
    let w = written(text);
    let none = Seq::<char>::empty();
    assert(s =~= seq!['"'] + w + seq!['"'] + rest);
    lemma_written_end(seq!['"'], text, rest);
    lemma_written_meant(none, text);
    assert(none + w =~= w);
    assert(s[0] == '"');
    assert(s.subrange(1, w.len() as int + 1) =~= w);
    lemma_first_of(quoted(text), rest, Some(TokenView::Text(text)));
}

/// The search goes on in the same way behind other tokens.
proof fn lemma_place_shift(a: Seq<TokenView>, b: Seq<TokenView>, i: nat, depth: nat)
    ensures
        title_place(a + b, a.len() + i, depth) == match title_place(b, i, depth) {
            Some(p) => Some(a.len() + p),
            None => None,
        },
    decreases b.len() - i,
{
    let all = a + b;
    if i < b.len() {
        assert(all[(a.len() + i) as int] == b[i as int]);
        if i + 1 < b.len() {
            assert(all[(a.len() + i) as int + 1] == b[i as int + 1]);
            lemma_place_shift(a, b, i + 2, 1);
        }
        lemma_place_shift(a, b, i + 1, 0);
        lemma_place_shift(a, b, i + 1, depth);
        lemma_place_shift(a, b, i + 1, depth + 1);
        if depth > 0 {
            lemma_place_shift(a, b, i + 1, (depth - 1) as nat);
        }
    }
}

/// The value of the first title that is assigned, looked for in tokens at a depth.
spec fn title_in(tokens: Seq<TokenView>, depth: nat) -> Option<Seq<char>> {
    match title_place(tokens, 0, depth) {
        Some(place) => plain_text(tokens, place as int),
        None => None,
    }
}

/// A title is found behind tokens over which the search passes.
proof fn lemma_title_behind(a: Seq<TokenView>, b: Seq<TokenView>, depth: nat, before: nat)
    requires
        title_place(a + b, 0, before) == title_place(a + b, a.len(), depth),
    ensures
        title_in(a + b, before) == title_in(b, depth),
{
    let all = a + b;
    lemma_place_shift(a, b, 0, depth);
    if let Some(p) = title_place(b, 0, depth) {
        let q = (a.len() + p) as int;
        if p < b.len() {
            assert(all[q] == b[p as int]);
            if p + 1 < b.len() {
                assert(all[q + 1] == b[p as int + 1]);
            }
        }
    }
}

/// Fields of a header other than the title, each a word, an equals sign and a quoted text.
pub open spec fn written_fields(fields: Seq<(Seq<char>, Seq<char>)>) -> Seq<char>
    decreases fields.len(),
{
    if fields.len() == 0 {
        seq![]
    } else {
        seq![' '] + fields[0].0 + seq![' ', '=', ' '] + quoted(fields[0].1) + written_fields(fields.skip(1))
    }
}

/// A blank, a word, an equals sign and a quoted text are three tokens.
proof fn lemma_field_tokens(name: Seq<char>, text: Seq<char>, rest: Seq<char>)
    requires
        is_word(name),
    ensures
        tokens_from(seq![' '] + name + seq![' ', '=', ' '] + quoted(text) + rest, 0) == seq![
            TokenView::Word(name),
            TokenView::Equals,
            TokenView::Text(text),
        ] + tokens_from(rest, 0),
{
    let e = quoted(text) + rest;
    let d = seq![' '] + e;
    let c = seq!['='] + d;
    let b = seq![' '] + c;
    let a = name + b;
    assert(seq![' '] + name + seq![' ', '=', ' '] + quoted(text) + rest =~= seq![' '] + a);
    lemma_quoted_token(text, rest);
    lemma_char_token(' ', e);
    lemma_char_token('=', d);
    lemma_char_token(' ', c);
    assert(b[0] == ' ');
    lemma_word_token(name, b);
    lemma_char_token(' ', a);
    assert(seq![TokenView::Word(name)] + (seq![TokenView::Equals] + (seq![TokenView::Text(text)] + tokens_from(rest, 0)))
        =~= seq![TokenView::Word(name), TokenView::Equals, TokenView::Text(text)] + tokens_from(rest, 0));
}

/// Within a header, the title is found behind other fields.
proof fn lemma_fields_passed(fields: Seq<(Seq<char>, Seq<char>)>, rest: Seq<char>)
    requires
        forall|i: int| 0 <= i < fields.len() ==> is_word((#[trigger] fields[i]).0) && fields[i].0 != "title"@,
        tokens_from(rest, 0).len() > 0 ==> !(tokens_from(rest, 0)[0] is Equals),
    ensures
        title_in(tokens_from(written_fields(fields) + rest, 0), 1) == title_in(tokens_from(rest, 0), 1),
        tokens_from(written_fields(fields) + rest, 0).len() > 0 ==> !(tokens_from(written_fields(fields) + rest, 0)[0] is Equals),
    decreases fields.len(),
{
    if fields.len() > 0 {
        let (name, text) = fields[0];
        let more = fields.skip(1);
        assert forall|i: int| 0 <= i < more.len() implies is_word((#[trigger] more[i]).0) && more[i].0 != "title"@ by {
            assert(more[i] == fields[i + 1]);
        }
        lemma_fields_passed(more, rest);
        let tail = written_fields(more) + rest;
        assert(is_word(fields[0].0));
        lemma_field_tokens(name, text, tail);
        assert(written_fields(fields) + rest =~= seq![' '] + name + seq![' ', '=', ' '] + quoted(text) + tail);
        let a = seq![TokenView::Word(name), TokenView::Equals, TokenView::Text(text)];
        let b = tokens_from(tail, 0);
        let all = a + b;
        assert(all[0] == TokenView::Word(name) && all[1] == TokenView::Equals && all[2] == TokenView::Text(text));
        assert(b.len() > 0 ==> all[3] == b[0]);
        assert(title_place(all, 2, 1) == title_place(all, 3, 1));
        assert(title_place(all, 1, 1) == title_place(all, 2, 1));
        assert(title_place(all, 0, 1) == title_place(all, 1, 1));
        lemma_title_behind(a, b, 1, 1);
    } else {
        assert(written_fields(fields) + rest =~= rest);
    }
}

/// Whether a text holds no command, no comment and no quoted text.
pub open spec fn is_plain(s: Seq<char>) -> bool {
    forall|i: int| 0 <= i < s.len() ==> #[trigger] s[i] != '\\' && s[i] != '%' && s[i] != '"'
}

/// A word ends before a backslash or a blank.
proof fn lemma_word_stops(front: Seq<char>, rest: Seq<char>)
    requires
        rest.len() > 0 ==> rest[0] == '\\' || rest[0] == ' ',
    ensures
        word_tail(front + rest) <= front.len(),
    decreases front.len(),
{
    let s = front + rest;
    if front.len() > 0 {
        assert(s.skip(1) =~= front.skip(1) + rest);
        lemma_word_stops(front.skip(1), rest);
        if front.len() > 1 {
            assert(s.skip(2) =~= front.skip(2) + rest);
            lemma_word_stops(front.skip(2), rest);
        } else if s.len() > 1 {
            assert(s[1] == rest[0]);
        }
    } else {
        assert(s =~= rest);
    }
}

/// Plain text in front of a command, of a blank or of nothing is passed over.
proof fn lemma_plain_passed(front: Seq<char>, rest: Seq<char>)
    requires
        is_plain(front),
        rest.len() > 0 ==> rest[0] == '\\' || rest[0] == ' ',
    ensures
        title_in(tokens_from(front + rest, 0), 0) == title_in(tokens_from(rest, 0), 0),
    decreases front.len(),
{
    if front.len() == 0 {
        assert(front + rest =~= rest);
    } else {
        let s = front + rest;
        let c = front[0];
        assert(s[0] == c);
        assert(c != '\\' && c != '%' && c != '"');
        let (n, token) = first_token(s);
        assert(s.skip(1) =~= front.skip(1) + rest);
        lemma_word_stops(front.skip(1), rest);
        assert(1 <= n <= front.len());
        let piece = front.take(n as int);
        let more = front.skip(n as int);
        assert(s =~= piece + (more + rest));
        assert forall|i: int| 0 <= i < more.len() implies #[trigger] more[i] != '\\' && more[i] != '%' && more[i] != '"' by {
            assert(more[i] == front[i + n]);
        }
        lemma_first_of(piece, more + rest, token);
        lemma_plain_passed(more, rest);
        let b = tokens_from(more + rest, 0);
        if let Some(t) = token {
            let a = seq![t];
            let all = a + b;
            assert(all[0] == t);
            assert(!(t is Command));
            assert(title_place(all, 0, 0) == title_place(all, 1, 0));
            lemma_title_behind(a, b, 0, 0);
        }
    }
}

/// The tokens of a header with fields and more.
proof fn lemma_header_opened(body: Seq<char>)
    ensures
        title_in(tokens_from("\\header {"@ + body, 0), 0) == title_in(tokens_from(body, 0), 1),
{
    reveal_strlit("\\header {");
    reveal_strlit("header");
    let name = seq!['h', 'e', 'a', 'd', 'e', 'r'];
    assert("header"@ =~= name);
    let b = seq!['{'] + body;
    let a = seq![' '] + b;
    assert("\\header {"@ + body =~= seq!['\\'] + name + a);
    assert(a[0] == ' ');
    lemma_char_token('{', body);
    lemma_char_token(' ', b);
    lemma_command_token(name, a);
    let front = seq![TokenView::Command(name), TokenView::Open];
    let back = tokens_from(body, 0);
    let all = front + back;
    assert(seq![TokenView::Command(name)] + (seq![TokenView::Open] + back) =~= all);
    assert(all[0] == TokenView::Command(name) && all[1] == TokenView::Open);
    assert(title_place(all, 0, 0) == title_place(all, 2, 1));
    lemma_title_behind(front, back, 1, 0);
}

/// The title of a LilyPond text is found whole, whatever it is: behind plain text and behind any
/// number of other fields of the header, and whatever follows it.
pub proof fn law_title_found(
    source: &str,
    title: Option<String>,
    front: Seq<char>,
    fields: Seq<(Seq<char>, Seq<char>)>,
    text: Seq<char>,
    rest: Seq<char>,
)
    requires
        call_ensures(lilypond_title, (source,), title),
        source@ == front + "\\header {"@ + written_fields(fields) + " title = "@ + quoted(text) + rest,
        is_plain(front),
        forall|i: int| 0 <= i < fields.len() ==> is_word((#[trigger] fields[i]).0) && fields[i].0 != "title"@,
    ensures
        title is Some,
        title->0@ == text,
{
    reveal_strlit("title");
    reveal_strlit(" title = ");
    reveal_strlit("\\header {");
    let name = "title"@;
    let end = " title = "@ + quoted(text) + rest;
    let body = written_fields(fields) + end;
    let whole = "\\header {"@ + body;
    assert(source@ =~= front + whole);
    assert(whole[0] == '\\');
    assert(is_word(name));
    assert(end =~= seq![' '] + name + seq![' ', '=', ' '] + quoted(text) + rest);
    lemma_field_tokens(name, text, rest);
    let all = tokens_from(end, 0);
    assert(all[0] == TokenView::Word(name) && all[1] == TokenView::Equals && all[2] == TokenView::Text(text));
    assert(title_place(all, 0, 1) == Some(2nat));
    lemma_fields_passed(fields, end);
    lemma_header_opened(body);
    lemma_plain_passed(front, whole);
}

/// A header that assigns no title gives none, nor does a text without a header.
pub proof fn law_no_title_found(
    source: &str,
    title: Option<String>,
    front: Seq<char>,
    fields: Seq<(Seq<char>, Seq<char>)>,
    rest: Seq<char>,
)
    requires
        call_ensures(lilypond_title, (source,), title),
        source@ == front || source@ == front + "\\header {"@ + written_fields(fields) + " }"@ + rest,
        is_plain(front),
        is_plain(rest),
        forall|i: int| 0 <= i < fields.len() ==> is_word((#[trigger] fields[i]).0) && fields[i].0 != "title"@,
    ensures
        title is None,
{
    let none = Seq::<char>::empty();
    assert(tokens_from(none, 0) =~= seq![]);
    lemma_plain_passed(rest, none);
    assert(rest + none =~= rest);
    if source@ == front {
        lemma_plain_passed(front, none);
        assert(front + none =~= front);
    } else {
        reveal_strlit("\\header {");
        reveal_strlit(" }");
        let close = seq!['}'] + rest;
        let end = " }"@ + rest;
        assert(end =~= seq![' '] + close);
        lemma_char_token(' ', close);
        lemma_char_token('}', rest);
        let body = written_fields(fields) + end;
        let whole = "\\header {"@ + body;
        assert(source@ =~= front + whole);
        assert(whole[0] == '\\');
        let a = seq![TokenView::Close];
        let b = tokens_from(rest, 0);
        assert((a + b)[0] == TokenView::Close);
        assert(title_place(a + b, 0, 1) == title_place(a + b, 1, 0));
        lemma_title_behind(a, b, 0, 1);
        lemma_fields_passed(fields, end);
        lemma_header_opened(body);
        lemma_plain_passed(front, whole);
    }
}

/// A line comment is no token.
proof fn lemma_line_comment(comment: Seq<char>, rest: Seq<char>)
    requires
        !comment.contains('\n'),
        comment.len() > 0 ==> comment[0] != '{',
    ensures
        tokens_from(seq!['%'] + comment + seq!['\n'] + rest, 0) == tokens_from(rest, 0),
{
    let piece = seq!['%'] + comment;
    let ended = seq!['\n'] + rest;
    let s = piece + ended;
    let tail = comment + ended;
    let n = comment.len() as int;
    assert(seq!['%'] + comment + seq!['\n'] + rest =~= s);
    assert(s.skip(1) =~= tail);
    assert(s[0] == '%');
    assert(s[1] == tail[0]);
    assert(tail[n] == '\n');
    lemma_line_feed(tail);
    if line_feed(tail) < n {
        assert(comment.contains(comment[line_feed(tail) as int]));
    }
    assert(line_feed(tail) == n);
    assert(comment_len(s) == piece.len());
    lemma_first_of(piece, ended, None);
    lemma_char_token('\n', rest);
}

/// A block comment ends where it is closed.
proof fn lemma_comment_end(comment: Seq<char>, rest: Seq<char>, from: int)
    requires
        !comment.contains('%'),
        0 <= from <= comment.len(),
    ensures
        find_text(comment + seq!['%', '}'] + rest, seq!['%', '}'], from) == Some(comment.len() as int),
    decreases comment.len() - from,
{
    let end = seq!['%', '}'];
    let tail = comment + end + rest;
    if from < comment.len() {
        lemma_comment_end(comment, rest, from + 1);
        assert(comment.contains(comment[from]));
        assert(tail.subrange(from, from + 2)[0] == comment[from]);
        assert(end[0] == '%');
    } else {
        assert(tail.subrange(from, from + 2) =~= end);
    }
}

/// A block comment is no token.
proof fn lemma_block_comment(comment: Seq<char>, rest: Seq<char>)
    requires
        !comment.contains('%'),
    ensures
        tokens_from(seq!['%', '{'] + comment + seq!['%', '}'] + rest, 0) == tokens_from(rest, 0),
{
    let end = seq!['%', '}'];
    let piece = seq!['%', '{'] + comment + end;
    let s = piece + rest;
    let tail = comment + end + rest;
    let n = comment.len() as int;
    assert(s[0] == '%' && s[1] == '{');
    assert(s.skip(2) =~= tail);
    lemma_comment_end(comment, rest, 0);
    assert(comment_len(s) == piece.len());
    lemma_first_of(piece, rest, None);
}

/// A comment does not matter to the title: a line comment ends with its line, and a block
/// comment where it is closed.
pub proof fn law_comments_ignored(
    source: &str,
    title: Option<String>,
    shorter: &str,
    again: Option<String>,
    comment: Seq<char>,
    rest: Seq<char>,
)
    requires
        call_ensures(lilypond_title, (source,), title),
        call_ensures(lilypond_title, (shorter,), again),
        shorter@ == rest,
        ({
            ||| {
                &&& source@ == seq!['%'] + comment + seq!['\n'] + rest
                &&& !comment.contains('\n')
                &&& comment.len() > 0 ==> comment[0] != '{'
            }
            ||| {
                &&& source@ == seq!['%', '{'] + comment + seq!['%', '}'] + rest
                &&& !comment.contains('%')
            }
        }),
    ensures
        text_view(title) == text_view(again),
{
    if source@ == seq!['%'] + comment + seq!['\n'] + rest && !comment.contains('\n') && (comment.len() > 0
        ==> comment[0] != '{') {
        lemma_line_comment(comment, rest);
    } else {
        lemma_block_comment(comment, rest);
    }
}

/// What stands before a header does not matter: plain text, other commands and quoted texts.
pub proof fn law_front_ignored(
    source: &str,
    title: Option<String>,
    shorter: &str,
    again: Option<String>,
    piece: Seq<char>,
    rest: Seq<char>,
)
    requires
        call_ensures(lilypond_title, (source,), title),
        call_ensures(lilypond_title, (shorter,), again),
        shorter@ == rest,
        ({
            ||| source@ == piece + (seq![' '] + rest) && is_plain(piece)
            ||| source@ == seq!['\\'] + piece + (seq![' '] + rest) && is_word(piece) && piece != "header"@
            ||| source@ == quoted(piece) + rest
        }),
    ensures
        text_view(title) == text_view(again),
{
    let behind = seq![' '] + rest;
    let b = tokens_from(rest, 0);
    lemma_char_token(' ', rest);
    if source@ == piece + behind && is_plain(piece) {
        lemma_plain_passed(piece, behind);
    } else if source@ == seq!['\\'] + piece + behind && is_word(piece) && piece != "header"@ {
        lemma_command_token(piece, behind);
        let a = seq![TokenView::Command(piece)];
        assert((a + b)[0] == TokenView::Command(piece));
        assert(title_place(a + b, 0, 0) == title_place(a + b, 1, 0));
        lemma_title_behind(a, b, 0, 0);
    } else {
        lemma_quoted_token(piece, rest);
        let a = seq![TokenView::Text(piece)];
        assert((a + b)[0] == TokenView::Text(piece));
        assert(title_place(a + b, 0, 0) == title_place(a + b, 1, 0));
        lemma_title_behind(a, b, 0, 0);
    }
}

/// A title may also be a single word, or a quoted text behind the sign of Scheme.
pub proof fn law_title_forms(source: &str, title: Option<String>, text: Seq<char>, rest: Seq<char>)
    requires
        call_ensures(lilypond_title, (source,), title),
        ({
            ||| source@ == "\\header { title = "@ + text + rest && is_word(text) && (rest.len() > 0 ==> !is_letter(rest[0])
                && !is_joint(rest[0]))
            ||| source@ == "\\header { title = #"@ + quoted(text) + rest
        }),
    ensures
        title is Some,
        title->0@ == text,
{
    reveal_strlit("\\header {");
    reveal_strlit("title");
    reveal_strlit("\\header { title = ");
    reveal_strlit("\\header { title = #");
    let name = "title"@;
    let sign = seq!['#'];
    let word = source@ == "\\header { title = "@ + text + rest && is_word(text) && (rest.len() > 0 ==> !is_letter(rest[0])
        && !is_joint(rest[0]));
    let end = if word { text + rest } else { sign + (quoted(text) + rest) };
    let d = seq![' '] + end;
    let c = seq!['='] + d;
    let b = seq![' '] + c;
    let body = seq![' '] + (name + b);
    assert(source@ =~= "\\header {"@ + body);
    assert(is_word(name));
    assert(b[0] == ' ');
    lemma_char_token(' ', name + b);
    lemma_word_token(name, b);
    lemma_char_token(' ', c);
    lemma_char_token('=', d);
    lemma_char_token(' ', end);
    if word {
        lemma_word_token(text, rest);
    } else {
        lemma_quoted_token(text, rest);
        let more = quoted(text) + rest;
        assert((sign + more)[0] == '#');
        lemma_first_of(sign, more, Some(TokenView::Sign('#')));
    }
    let all = tokens_from(body, 0);
    assert(all =~= seq![TokenView::Word(name), TokenView::Equals] + tokens_from(end, 0));
    assert(all[0] == TokenView::Word(name) && all[1] == TokenView::Equals && all[2] == tokens_from(end, 0)[0]);
    assert(!word ==> all[3] == tokens_from(end, 0)[1]);
    assert(title_place(all, 0, 1) == Some(2nat));
    lemma_header_opened(body);
}

} // verus!
