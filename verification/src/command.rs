//! Parsing of the slash commands typed into the chat input.

use vstd::prelude::*;

verus! {

/// `char::is_whitespace`: the Unicode `White_Space` property.
pub open spec fn is_whitespace(c: char) -> bool {
    ||| '\u{9}' <= c <= '\u{d}'
    ||| c == ' '
    ||| c == '\u{85}'
    ||| c == '\u{a0}'
    ||| c == '\u{1680}'
    ||| '\u{2000}' <= c <= '\u{200a}'
    ||| c == '\u{2028}'
    ||| c == '\u{2029}'
    ||| c == '\u{202f}'
    ||| c == '\u{205f}'
    ||| c == '\u{3000}'
}

/// `s` without its leading copies of `c`.
pub open spec fn strip_leading(s: Seq<char>, c: char) -> Seq<char>
    decreases s.len(),
{
    if s.len() > 0 && s[0] == c {
        strip_leading(s.drop_first(), c)
    } else {
        s
    }
}

/// The index of the first `c` in `s`, or `s.len()` when there is none.
pub open spec fn find_char(s: Seq<char>, c: char) -> int
    decreases s.len(),
{
    if s.len() == 0 {
        0
    } else if s[0] == c {
        0
    } else {
        1 + find_char(s.drop_first(), c)
    }
}

/// `s.splitn(2, c)`: the part before the first `c`, and the part after it when
/// there is one.
pub open spec fn split_first(s: Seq<char>, c: char) -> (Seq<char>, Option<Seq<char>>) {
    let i = find_char(s, c);
    if i < s.len() {
        (s.take(i), Some(s.skip(i + 1)))
    } else {
        (s, None)
    }
}

/// `s` without its leading whitespace.
pub open spec fn trim_start_ws(s: Seq<char>) -> Seq<char>
    decreases s.len(),
{
    if s.len() > 0 && is_whitespace(s[0]) {
        trim_start_ws(s.drop_first())
    } else {
        s
    }
}

/// `s` without its trailing whitespace.
pub open spec fn trim_end_ws(s: Seq<char>) -> Seq<char>
    decreases s.len(),
{
    if s.len() > 0 && is_whitespace(s.last()) {
        trim_end_ws(s.drop_last())
    } else {
        s
    }
}

/// `str::trim`: leading and trailing whitespace removed.
pub open spec fn trim_ws(s: Seq<char>) -> Seq<char> {
    trim_end_ws(trim_start_ws(s))
}

/// What `str::to_lowercase` makes of a text (full Unicode case mapping).
pub uninterp spec fn spec_to_lowercase(s: Seq<char>) -> Seq<char>;

/// Every char of `s` is ASCII.
pub open spec fn is_ascii_text(s: Seq<char>) -> bool {
    forall|i: int| 0 <= i < s.len() ==> s[i] <= '\u{7f}'
}

/// The ASCII lower case of a char: `A` to `Z` become `a` to `z`, every other
/// char stays.
pub open spec fn ascii_lower_char(c: char) -> char {
    if 'A' <= c <= 'Z' {
        ((c as u32) + 32) as char
    } else {
        c
    }
}

/// `s` with its ASCII capitals in lower case.
pub open spec fn ascii_lower(s: Seq<char>) -> Seq<char> {
    s.map_values(|c: char| ascii_lower_char(c))
}

/// What `str::to_lowercase` makes of `s`: on ASCII text, the ASCII lower case.
pub open spec fn lower_text(s: Seq<char>) -> Seq<char> {
    if is_ascii_text(s) {
        ascii_lower(s)
    } else {
        spec_to_lowercase(s)
    }
}

/// Trusted: `str::to_lowercase` (std). The Unicode lowercase mapping, with its
/// context-dependent final sigma, is named by `spec_to_lowercase`. In the
/// Unicode data the only ASCII chars with a lowercase mapping other than
/// themselves are `A` to `Z`, which map to `a` to `z`, and no context rule
/// applies to ASCII, so ASCII text comes back in ASCII lower case.
#[verifier::external_body]
fn to_lowercase(s: &str) -> (r: String)
    ensures
        r@ == spec_to_lowercase(s@),
        is_ascii_text(s@) ==> r@ == ascii_lower(s@),
{
    s.to_lowercase()
}

fn is_whitespace_char(c: char) -> (r: bool)
    ensures
        r == is_whitespace(c),
{
    ('\u{9}' <= c && c <= '\u{d}') || c == ' ' || c == '\u{85}' || c == '\u{a0}' || c
        == '\u{1680}' || ('\u{2000}' <= c && c <= '\u{200a}') || c == '\u{2028}' || c
        == '\u{2029}' || c == '\u{202f}' || c == '\u{205f}' || c == '\u{3000}'
}

/// The index of the first char of `s[from..to]` that is not `c`.
fn skip_char(s: &str, from: usize, to: usize, c: char) -> (i: usize)
    requires
        from <= to <= s@.len(),
    ensures
        from <= i <= to,
        strip_leading(s@.subrange(from as int, to as int), c) == s@.subrange(i as int, to as int),
{
    let mut i = from;
    while i < to && s.get_char(i) == c
        invariant
            from <= i <= to <= s@.len(),
            strip_leading(s@.subrange(from as int, to as int), c) == strip_leading(
                s@.subrange(i as int, to as int),
                c,
            ),
        decreases to - i,
    {
        assert(s@.subrange(i as int, to as int).drop_first() =~= s@.subrange(i + 1, to as int));
        i = i + 1;
    }
    i
}

/// The index of the first char of `s[from..]` that is not whitespace.
fn skip_whitespace(s: &str, from: usize, to: usize) -> (i: usize)
    requires
        from <= to <= s@.len(),
    ensures
        from <= i <= to,
        trim_start_ws(s@.subrange(from as int, to as int)) == s@.subrange(i as int, to as int),
{
    let mut i = from;
    while i < to && is_whitespace_char(s.get_char(i))
        invariant
            from <= i <= to <= s@.len(),
            trim_start_ws(s@.subrange(from as int, to as int)) == trim_start_ws(
                s@.subrange(i as int, to as int),
            ),
        decreases to - i,
    {
        assert(s@.subrange(i as int, to as int).drop_first() =~= s@.subrange(i + 1, to as int));
        i = i + 1;
    }
    i
}

/// The end of `s[from..to]` once trailing whitespace is dropped.
fn back_whitespace(s: &str, from: usize, to: usize) -> (j: usize)
    requires
        from <= to <= s@.len(),
    ensures
        from <= j <= to,
        trim_end_ws(s@.subrange(from as int, to as int)) == s@.subrange(from as int, j as int),
{
    let mut j = to;
    while j > from && is_whitespace_char(s.get_char(j - 1))
        invariant
            from <= j <= to <= s@.len(),
            trim_end_ws(s@.subrange(from as int, to as int)) == trim_end_ws(
                s@.subrange(from as int, j as int),
            ),
        decreases j - from,
    {
        assert(s@.subrange(from as int, j as int).drop_last() =~= s@.subrange(from as int, j - 1));
        j = j - 1;
    }
    j
}

/// The index of the first `c` in `s[from..to]`, or `to`.
fn find_in(s: &str, from: usize, to: usize, c: char) -> (i: usize)
    requires
        from <= to <= s@.len(),
    ensures
        from <= i <= to,
        i - from == find_char(s@.subrange(from as int, to as int), c),
{
    let mut i = from;
    while i < to && s.get_char(i) != c
        invariant
            from <= i <= to <= s@.len(),
            find_char(s@.subrange(from as int, to as int), c) == (i - from) + find_char(
                s@.subrange(i as int, to as int),
                c,
            ),
        decreases to - i,
    {
        assert(s@.subrange(i as int, to as int).drop_first() =~= s@.subrange(i + 1, to as int));
        i = i + 1;
    }
    i
}

/// Equality of two texts.
fn same_text(a: &str, b: &str) -> (r: bool)
    ensures
        r == (a@ == b@),
{
    let n = a.unicode_len();
    if n != b.unicode_len() {
        return false;
    }
    let mut i: usize = 0;
    while i < n
        invariant
            n == a@.len() == b@.len(),
            i <= n,
            forall|j: int| 0 <= j < i ==> a@[j] == b@[j],
        decreases n - i,
    {
        if a.get_char(i) != b.get_char(i) {
            return false;
        }
        i = i + 1;
    }
    assert(a@ =~= b@);
    true
}

/// A parsed command.
#[derive(Debug, PartialEq)]
pub enum Command {
    Msg { nickname: String, message: Option<String> },
    Who,
    Clear,
    Hug { nickname: String },
    Slap { nickname: String },
    Block { nickname: String },
    Unblock { nickname: String },
    Fav { nickname: String },
    Unfav { nickname: String },
    Help,
}

/// A command as plain values.
pub enum CommandView {
    Msg { nickname: Seq<char>, message: Option<Seq<char>> },
    Who,
    Clear,
    Hug { nickname: Seq<char> },
    Slap { nickname: Seq<char> },
    Block { nickname: Seq<char> },
    Unblock { nickname: Seq<char> },
    Fav { nickname: Seq<char> },
    Unfav { nickname: Seq<char> },
    Help,
}

impl View for Command {
    type V = CommandView;

    open spec fn view(&self) -> CommandView {
        match self {
            Command::Msg { nickname, message } => CommandView::Msg {
                nickname: nickname@,
                message: match message {
                    Some(m) => Some(m@),
                    None => None,
                },
            },
            Command::Who => CommandView::Who,
            Command::Clear => CommandView::Clear,
            Command::Hug { nickname } => CommandView::Hug { nickname: nickname@ },
            Command::Slap { nickname } => CommandView::Slap { nickname: nickname@ },
            Command::Block { nickname } => CommandView::Block { nickname: nickname@ },
            Command::Unblock { nickname } => CommandView::Unblock { nickname: nickname@ },
            Command::Fav { nickname } => CommandView::Fav { nickname: nickname@ },
            Command::Unfav { nickname } => CommandView::Unfav { nickname: nickname@ },
            Command::Help => CommandView::Help,
        }
    }
}

/// Why a command was refused; the text is shown to the user.
#[derive(Debug, PartialEq, Eq)]
pub struct ParseError(String);

impl View for ParseError {
    type V = Seq<char>;

    closed spec fn view(&self) -> Seq<char> {
        self.0@
    }
}

impl ParseError {
    /// The text shown to the user.
    pub fn message(&self) -> (s: &str)
        ensures
            s@ == self@,
    {
        self.0.as_str()
    }
}

/// The command word: the input without its leading slashes, up to the first
/// space, in lower case.
pub open spec fn command_word(input: Seq<char>) -> Seq<char> {
    lower_text(split_first(strip_leading(input, '/'), ' ').0)
}

/// The arguments: what follows the first space, trimmed.
pub open spec fn command_args(input: Seq<char>) -> Seq<char> {
    trim_ws(
        match split_first(strip_leading(input, '/'), ' ').1 {
            Some(r) => r,
            None => Seq::empty(),
        },
    )
}

/// A command that names one user: refused with its usage text when there are
/// no arguments, otherwise the arguments without leading `@`s.
pub open spec fn nickname_arg(args: Seq<char>, usage: Seq<char>) -> Result<Seq<char>, Seq<char>> {
    if args.len() == 0 {
        Err(usage)
    } else {
        Ok(strip_leading(args, '@'))
    }
}

/// What `process_command` makes of an input line: the command or the error
/// text.
pub open spec fn spec_process_command(input: Seq<char>) -> Result<CommandView, Seq<char>> {
    let cmd = command_word(input);
    let args = command_args(input);
    if cmd == "m"@ || cmd == "msg"@ {
        let (nick, message) = split_first(args, ' ');
        Ok(CommandView::Msg { nickname: strip_leading(nick, '@'), message })
    } else if cmd == "w"@ || cmd == "who"@ {
        Ok(CommandView::Who)
    } else if cmd == "clear"@ {
        Ok(CommandView::Clear)
    } else if cmd == "hug"@ {
        match nickname_arg(args, "usage: /hug <nickname>"@) {
            Ok(n) => Ok(CommandView::Hug { nickname: n }),
            Err(e) => Err(e),
        }
    } else if cmd == "slap"@ {
        match nickname_arg(args, "usage: /slap <nickname>"@) {
            Ok(n) => Ok(CommandView::Slap { nickname: n }),
            Err(e) => Err(e),
        }
    } else if cmd == "block"@ {
        match nickname_arg(args, "usage: /block <nickname>"@) {
            Ok(n) => Ok(CommandView::Block { nickname: n }),
            Err(e) => Err(e),
        }
    } else if cmd == "unblock"@ {
        match nickname_arg(args, "usage: /unblock <nickname>"@) {
            Ok(n) => Ok(CommandView::Unblock { nickname: n }),
            Err(e) => Err(e),
        }
    } else if cmd == "fav"@ {
        match nickname_arg(args, "usage: /fav <nickname>"@) {
            Ok(n) => Ok(CommandView::Fav { nickname: n }),
            Err(e) => Err(e),
        }
    } else if cmd == "unfav"@ {
        match nickname_arg(args, "usage: /unfav <nickname>"@) {
            Ok(n) => Ok(CommandView::Unfav { nickname: n }),
            Err(e) => Err(e),
        }
    } else if cmd == "h"@ || cmd == "help"@ {
        Ok(CommandView::Help)
    } else {
        Err("unknown command: /"@ + cmd)
    }
}

/// Leading slashes do not matter: a line with one more `/` in front parses to
/// the same command, or fails with the same error.
pub proof fn lemma_extra_slash(input: Seq<char>)
    ensures
        spec_process_command(seq!['/'] + input) == spec_process_command(input),
{
    let t = seq!['/'] + input;
    assert(t.drop_first() =~= input);
    assert(strip_leading(t, '/') == strip_leading(input, '/'));
}

/// The first space in a word without spaces followed by a space and more
/// text is the one right after the word.
proof fn lemma_find_space_after_word(c: Seq<char>, a: Seq<char>)
    requires
        !c.contains(' '),
    ensures
        find_char(c + seq![' '] + a, ' ') == c.len(),
    decreases c.len(),
{
    let s = c + seq![' '] + a;
    if c.len() > 0 {
        assert(c[0] != ' ') by {
            assert(c.contains(c[0]));
        }
        assert(s.drop_first() =~= c.drop_first() + seq![' '] + a);
        assert forall|k: int| 0 <= k < c.drop_first().len() implies c.drop_first()[k] != ' ' by {
            assert(c.contains(c[k + 1]));
        }
        lemma_find_space_after_word(c.drop_first(), a);
    } else {
        assert(s[0] == ' ');
    }
}

/// Command words are case-insensitive: two command words without spaces or
/// a leading `/` that lowercase alike, each behind a `/` and followed by a
/// space and the same arguments, parse to the same command or error.
pub proof fn lemma_command_word_case(c1: Seq<char>, c2: Seq<char>, args: Seq<char>)
    requires
        !c1.contains(' '),
        !c2.contains(' '),
        c1.len() == 0 || c1[0] != '/',
        c2.len() == 0 || c2[0] != '/',
        lower_text(c1) == lower_text(c2),
    ensures
        spec_process_command(seq!['/'] + c1 + seq![' '] + args) == spec_process_command(
            seq!['/'] + c2 + seq![' '] + args,
        ),
{
    let i1 = seq!['/'] + c1 + seq![' '] + args;
    let i2 = seq!['/'] + c2 + seq![' '] + args;
    let b1 = c1 + seq![' '] + args;
    let b2 = c2 + seq![' '] + args;
    assert(i1.drop_first() =~= b1);
    assert(i2.drop_first() =~= b2);
    assert(b1[0] != '/') by {
        if c1.len() == 0 {
            assert(b1[0] == ' ');
        } else {
            assert(b1[0] == c1[0]);
        }
    }
    assert(b2[0] != '/') by {
        if c2.len() == 0 {
            assert(b2[0] == ' ');
        } else {
            assert(b2[0] == c2[0]);
        }
    }
    assert(strip_leading(b1, '/') == b1);
    assert(strip_leading(b2, '/') == b2);
    assert(strip_leading(i1, '/') == strip_leading(b1, '/'));
    assert(strip_leading(i2, '/') == strip_leading(b2, '/'));
    lemma_find_space_after_word(c1, args);
    lemma_find_space_after_word(c2, args);
    assert(b1.take(c1.len() as int) =~= c1);
    assert(b2.take(c2.len() as int) =~= c2);
    assert(b1.skip(c1.len() as int + 1) =~= args);
    assert(b2.skip(c2.len() as int + 1) =~= args);
    assert(command_word(i1) == command_word(i2));
    assert(command_args(i1) == command_args(i2));
}

/// Lowering the case of ASCII text keeps it ASCII, puts no space or `/` where
/// there was none, and lowering it again changes nothing.
pub proof fn lemma_ascii_lower(c: Seq<char>)
    requires
        is_ascii_text(c),
    ensures
        lower_text(c) == ascii_lower(c),
        is_ascii_text(ascii_lower(c)),
        lower_text(lower_text(c)) == lower_text(c),
        ascii_lower(ascii_lower(c)) == ascii_lower(c),
        !c.contains(' ') ==> !ascii_lower(c).contains(' '),
        c.len() == 0 || c[0] != '/' ==> ascii_lower(c).len() == 0 || ascii_lower(c)[0] != '/',
{
    let l = ascii_lower(c);
    assert forall|i: int| 0 <= i < l.len() implies l[i] <= '\u{7f}' && !('A' <= l[i] <= 'Z')
        && (l[i] == ' ' ==> c[i] == ' ') && (l[i] == '/' ==> c[i] == '/') by {
        if 'A' <= c[i] <= 'Z' {
            assert(('a' as u32) <= (c[i] as u32) + 32 <= ('z' as u32));
        }
    }
    assert(ascii_lower(l) =~= l);
    if !c.contains(' ') && l.contains(' ') {
        let i = choose|i: int| 0 <= i < l.len() && l[i] == ' ';
        assert(c.contains(c[i]));
    }
}

/// A command word parses as its lower-case form does, the arguments keeping
/// their case, whenever lowering it puts no space or leading `/` in it and
/// lowering it again changes nothing.
pub proof fn lemma_command_word_lowered(c: Seq<char>, args: Seq<char>)
    requires
        !c.contains(' '),
        c.len() == 0 || c[0] != '/',
        !lower_text(c).contains(' '),
        lower_text(c).len() == 0 || lower_text(c)[0] != '/',
        lower_text(lower_text(c)) == lower_text(c),
    ensures
        spec_process_command(seq!['/'] + c + seq![' '] + args) == spec_process_command(
            seq!['/'] + lower_text(c) + seq![' '] + args,
        ),
{
    lemma_command_word_case(c, lower_text(c), args);
}

/// Command words are case-insensitive: an ASCII command word without spaces
/// or a leading `/`, behind a `/` and followed by a space and arguments, parses
/// to the same command or error as its lower-case form (what `to_lowercase`
/// makes of it), the arguments keeping their case.
pub proof fn lemma_command_word_ascii_case(c: Seq<char>, args: Seq<char>)
    requires
        is_ascii_text(c),
        !c.contains(' '),
        c.len() == 0 || c[0] != '/',
    ensures
        lower_text(c) == ascii_lower(c),
        spec_process_command(seq!['/'] + c + seq![' '] + args) == spec_process_command(
            seq!['/'] + ascii_lower(c) + seq![' '] + args,
        ),
{
    lemma_ascii_lower(c);
    lemma_command_word_lowered(c, args);
}

/// A lower-case ASCII command word, behind a `/` and followed by a space and
/// trimmed arguments, is read as that word with those arguments.
proof fn lemma_command_parts(c: Seq<char>, a: Seq<char>)
    requires
        is_ascii_text(c),
        ascii_lower(c) == c,
        !c.contains(' '),
        c.len() > 0,
        c[0] != '/',
        trim_ws(a) == a,
    ensures
        command_word(seq!['/'] + c + seq![' '] + a) == c,
        command_args(seq!['/'] + c + seq![' '] + a) == a,
{
    let i = seq!['/'] + c + seq![' '] + a;
    let b = c + seq![' '] + a;
    assert(i.drop_first() =~= b);
    assert(b[0] == c[0]);
    assert(strip_leading(b, '/') == b);
    assert(strip_leading(i, '/') == strip_leading(b, '/'));
    lemma_find_space_after_word(c, a);
    assert(b.take(c.len() as int) =~= c);
    assert(b.skip(c.len() as int + 1) =~= a);
}

/// Whether `c` has no ASCII capital.
proof fn lemma_lower_word(c: Seq<char>)
    requires
        forall|i: int| 0 <= i < c.len() ==> 'a' <= #[trigger] c[i] <= 'z',
    ensures
        is_ascii_text(c),
        ascii_lower(c) == c,
        !c.contains(' '),
        c.len() > 0 ==> c[0] != '/',
{
    assert(ascii_lower(c) =~= c);
}

/// The one-user commands name the user given: for each of `hug`, `slap`,
/// `block`, `unblock`, `fav` and `unfav`, a non-empty argument (already
/// trimmed) gives that command with the argument's leading `@`s removed.
pub proof fn lemma_nickname_commands(a: Seq<char>)
    requires
        trim_ws(a) == a,
        a.len() > 0,
    ensures
        spec_process_command(seq!['/'] + "hug"@ + seq![' '] + a) == Ok::<CommandView, Seq<char>>(
            CommandView::Hug { nickname: strip_leading(a, '@') },
        ),
        spec_process_command(seq!['/'] + "slap"@ + seq![' '] + a) == Ok::<CommandView, Seq<char>>(
            CommandView::Slap { nickname: strip_leading(a, '@') },
        ),
        spec_process_command(seq!['/'] + "block"@ + seq![' '] + a) == Ok::<CommandView, Seq<char>>(
            CommandView::Block { nickname: strip_leading(a, '@') },
        ),
        spec_process_command(seq!['/'] + "unblock"@ + seq![' '] + a) == Ok::<CommandView, Seq<char>>(
            CommandView::Unblock { nickname: strip_leading(a, '@') },
        ),
        spec_process_command(seq!['/'] + "fav"@ + seq![' '] + a) == Ok::<CommandView, Seq<char>>(
            CommandView::Fav { nickname: strip_leading(a, '@') },
        ),
        spec_process_command(seq!['/'] + "unfav"@ + seq![' '] + a) == Ok::<CommandView, Seq<char>>(
            CommandView::Unfav { nickname: strip_leading(a, '@') },
        ),
{
    reveal_strlit("hug");
    reveal_strlit("slap");
    reveal_strlit("block");
    reveal_strlit("unblock");
    reveal_strlit("fav");
    reveal_strlit("unfav");
    reveal_strlit("m");
    reveal_strlit("msg");
    reveal_strlit("w");
    reveal_strlit("who");
    reveal_strlit("clear");
    lemma_lower_word("hug"@);
    lemma_command_parts("hug"@, a);
    lemma_lower_word("slap"@);
    lemma_command_parts("slap"@, a);
    lemma_lower_word("block"@);
    lemma_command_parts("block"@, a);
    lemma_lower_word("unblock"@);
    lemma_command_parts("unblock"@, a);
    lemma_lower_word("fav"@);
    lemma_command_parts("fav"@, a);
    lemma_lower_word("unfav"@);
    lemma_command_parts("unfav"@, a);
}

/// In a text without `c`, the first `c` is looked for past the end.
proof fn lemma_find_absent(s: Seq<char>, c: char)
    requires
        !s.contains(c),
    ensures
        find_char(s, c) == s.len(),
    decreases s.len(),
{
    if s.len() > 0 {
        assert(s.contains(s[0]));
        assert forall|k: int| 0 <= k < s.drop_first().len() implies s.drop_first()[k] != c by {
            assert(s.contains(s[k + 1]));
        }
        lemma_find_absent(s.drop_first(), c);
    }
}

/// `/msg` and `/m` send to the user named first (without leading `@`s) the
/// rest of the arguments after the first space, or no text when there is no
/// space.
pub proof fn lemma_msg_command(nick: Seq<char>, rest: Seq<char>)
    requires
        !nick.contains(' '),
        trim_ws(nick + seq![' '] + rest) == nick + seq![' '] + rest,
        trim_ws(nick) == nick,
    ensures
        spec_process_command(seq!['/'] + "msg"@ + seq![' '] + (nick + seq![' '] + rest)) == Ok::<
            CommandView,
            Seq<char>,
        >(CommandView::Msg { nickname: strip_leading(nick, '@'), message: Some(rest) }),
        spec_process_command(seq!['/'] + "m"@ + seq![' '] + (nick + seq![' '] + rest)) == Ok::<
            CommandView,
            Seq<char>,
        >(CommandView::Msg { nickname: strip_leading(nick, '@'), message: Some(rest) }),
        spec_process_command(seq!['/'] + "msg"@ + seq![' '] + nick) == Ok::<CommandView, Seq<char>>(
            CommandView::Msg { nickname: strip_leading(nick, '@'), message: None },
        ),
        spec_process_command(seq!['/'] + "m"@ + seq![' '] + nick) == Ok::<CommandView, Seq<char>>(
            CommandView::Msg { nickname: strip_leading(nick, '@'), message: None },
        ),
{
    reveal_strlit("msg");
    reveal_strlit("m");
    let a = nick + seq![' '] + rest;
    lemma_lower_word("msg"@);
    lemma_command_parts("msg"@, a);
    lemma_command_parts("msg"@, nick);
    lemma_lower_word("m"@);
    lemma_command_parts("m"@, a);
    lemma_command_parts("m"@, nick);
    lemma_find_space_after_word(nick, rest);
    assert(a.take(nick.len() as int) =~= nick);
    assert(a.skip(nick.len() as int + 1) =~= rest);
    lemma_find_absent(nick, ' ');
}

/// The commands without arguments: `/w` and `/who` list the users, `/clear`
/// clears the screen, `/h` and `/help` show the help, whatever (trimmed)
/// arguments follow.
pub proof fn lemma_plain_commands(a: Seq<char>)
    requires
        trim_ws(a) == a,
    ensures
        spec_process_command(seq!['/'] + "w"@ + seq![' '] + a) == Ok::<CommandView, Seq<char>>(CommandView::Who),
        spec_process_command(seq!['/'] + "who"@ + seq![' '] + a) == Ok::<CommandView, Seq<char>>(CommandView::Who),
        spec_process_command(seq!['/'] + "clear"@ + seq![' '] + a) == Ok::<CommandView, Seq<char>>(
            CommandView::Clear,
        ),
        spec_process_command(seq!['/'] + "h"@ + seq![' '] + a) == Ok::<CommandView, Seq<char>>(CommandView::Help),
        spec_process_command(seq!['/'] + "help"@ + seq![' '] + a) == Ok::<CommandView, Seq<char>>(
            CommandView::Help,
        ),
{
    reveal_strlit("w");
    reveal_strlit("who");
    reveal_strlit("clear");
    reveal_strlit("h");
    reveal_strlit("help");
    reveal_strlit("m");
    reveal_strlit("msg");
    reveal_strlit("hug");
    reveal_strlit("slap");
    reveal_strlit("block");
    reveal_strlit("unblock");
    reveal_strlit("fav");
    reveal_strlit("unfav");
    lemma_lower_word("w"@);
    lemma_command_parts("w"@, a);
    lemma_lower_word("who"@);
    lemma_command_parts("who"@, a);
    lemma_lower_word("clear"@);
    lemma_command_parts("clear"@, a);
    lemma_lower_word("h"@);
    lemma_command_parts("h"@, a);
    lemma_lower_word("help"@);
    lemma_command_parts("help"@, a);
}

/// A one-user command without an argument is refused with its usage text.
pub proof fn lemma_nickname_commands_need_argument()
    ensures
        spec_process_command(seq!['/'] + "hug"@ + seq![' ']) == Err::<CommandView, Seq<char>>(
            "usage: /hug <nickname>"@,
        ),
        spec_process_command(seq!['/'] + "slap"@ + seq![' ']) == Err::<CommandView, Seq<char>>(
            "usage: /slap <nickname>"@,
        ),
        spec_process_command(seq!['/'] + "block"@ + seq![' ']) == Err::<CommandView, Seq<char>>(
            "usage: /block <nickname>"@,
        ),
        spec_process_command(seq!['/'] + "unblock"@ + seq![' ']) == Err::<CommandView, Seq<char>>(
            "usage: /unblock <nickname>"@,
        ),
        spec_process_command(seq!['/'] + "fav"@ + seq![' ']) == Err::<CommandView, Seq<char>>(
            "usage: /fav <nickname>"@,
        ),
        spec_process_command(seq!['/'] + "unfav"@ + seq![' ']) == Err::<CommandView, Seq<char>>(
            "usage: /unfav <nickname>"@,
        ),
{
    reveal_strlit("hug");
    reveal_strlit("slap");
    reveal_strlit("block");
    reveal_strlit("unblock");
    reveal_strlit("fav");
    reveal_strlit("unfav");
    reveal_strlit("m");
    reveal_strlit("msg");
    reveal_strlit("w");
    reveal_strlit("who");
    reveal_strlit("clear");
    let e = Seq::<char>::empty();
    assert(trim_ws(e) =~= e) by {
        reveal_with_fuel(trim_start_ws, 1);
        reveal_with_fuel(trim_end_ws, 1);
    }
    assert(seq!['/'] + "hug"@ + seq![' '] =~= seq!['/'] + "hug"@ + seq![' '] + e);
    assert(seq!['/'] + "slap"@ + seq![' '] =~= seq!['/'] + "slap"@ + seq![' '] + e);
    assert(seq!['/'] + "block"@ + seq![' '] =~= seq!['/'] + "block"@ + seq![' '] + e);
    assert(seq!['/'] + "unblock"@ + seq![' '] =~= seq!['/'] + "unblock"@ + seq![' '] + e);
    assert(seq!['/'] + "fav"@ + seq![' '] =~= seq!['/'] + "fav"@ + seq![' '] + e);
    assert(seq!['/'] + "unfav"@ + seq![' '] =~= seq!['/'] + "unfav"@ + seq![' '] + e);
    lemma_lower_word("hug"@);
    lemma_command_parts("hug"@, e);
    lemma_lower_word("slap"@);
    lemma_command_parts("slap"@, e);
    lemma_lower_word("block"@);
    lemma_command_parts("block"@, e);
    lemma_lower_word("unblock"@);
    lemma_command_parts("unblock"@, e);
    lemma_lower_word("fav"@);
    lemma_command_parts("fav"@, e);
    lemma_lower_word("unfav"@);
    lemma_command_parts("unfav"@, e);
}

/// The text of `s[from..to]` as a new string.
fn text_between(s: &str, from: usize, to: usize) -> (t: String)
    requires
        from <= to <= s@.len(),
    ensures
        t@ == s@.subrange(from as int, to as int),
{
    String::from_str(s.substring_char(from, to))
}

/// The nickname argument of a one-user command, read from `s[from..to]`.
fn nickname_between(s: &str, from: usize, to: usize, usage: &str) -> (r: Result<String, ParseError>)
    requires
        from <= to <= s@.len(),
    ensures
        match nickname_arg(s@.subrange(from as int, to as int), usage@) {
            Ok(n) => r matches Ok(t) && t@ == n,
            Err(e) => r matches Err(p) && p@ == e,
        },
{
    if from == to {
        return Err(ParseError(String::from_str(usage)));
    }
    let k = skip_char(s, from, to, '@');
    Ok(text_between(s, k, to))
}

/// Parses an input line such as `/msg @bob hi` into a command.
pub fn process_command(input: &str) -> (r: Result<Command, ParseError>)
    ensures
        match spec_process_command(input@) {
            Ok(c) => r matches Ok(cmd) && cmd@ == c,
            Err(e) => r matches Err(p) && p@ == e,
        },
{
    let n = input.unicode_len();
    let start = skip_char(input, 0, n, '/');
    assert(input@.subrange(0, n as int) =~= input@);
    let space = find_in(input, start, n, ' ');
    let command = to_lowercase(input.substring_char(start, space));
    let ghost body = input@.subrange(start as int, n as int);
    assert(body.take(space - start) =~= input@.subrange(start as int, space as int));
    let (a, b) = if space < n {
        assert(body.skip(space - start + 1) =~= input@.subrange(space + 1, n as int));
        let a = skip_whitespace(input, space + 1, n);
        let b = back_whitespace(input, a, n);
        (a, b)
    } else {
        assert(trim_ws(Seq::<char>::empty()) =~= Seq::<char>::empty()) by {
            reveal_with_fuel(trim_start_ws, 1);
            reveal_with_fuel(trim_end_ws, 1);
        }
        (n, n)
    };
    assert(command@ == command_word(input@));
    assert(input@.subrange(a as int, b as int) == command_args(input@));
    let c = command.as_str();
    if same_text(c, "m") || same_text(c, "msg") {
        let q = find_in(input, a, b, ' ');
        let ghost args = input@.subrange(a as int, b as int);
        assert(args.take(q - a) =~= input@.subrange(a as int, q as int));
        let k = skip_char(input, a, q, '@');
        let nickname = text_between(input, k, q);
        let message = if q < b {
            assert(args.skip(q - a + 1) =~= input@.subrange(q + 1, b as int));
            Some(text_between(input, q + 1, b))
        } else {
            None
        };
        Ok(Command::Msg { nickname, message })
    } else if same_text(c, "w") || same_text(c, "who") {
        Ok(Command::Who)
    } else if same_text(c, "clear") {
        Ok(Command::Clear)
    } else if same_text(c, "hug") {
        match nickname_between(input, a, b, "usage: /hug <nickname>") {
            Ok(nickname) => Ok(Command::Hug { nickname }),
            Err(e) => Err(e),
        }
    } else if same_text(c, "slap") {
        match nickname_between(input, a, b, "usage: /slap <nickname>") {
            Ok(nickname) => Ok(Command::Slap { nickname }),
            Err(e) => Err(e),
        }
    } else if same_text(c, "block") {
        match nickname_between(input, a, b, "usage: /block <nickname>") {
            Ok(nickname) => Ok(Command::Block { nickname }),
            Err(e) => Err(e),
        }
    } else if same_text(c, "unblock") {
        match nickname_between(input, a, b, "usage: /unblock <nickname>") {
            Ok(nickname) => Ok(Command::Unblock { nickname }),
            Err(e) => Err(e),
        }
    } else if same_text(c, "fav") {
        match nickname_between(input, a, b, "usage: /fav <nickname>") {
            Ok(nickname) => Ok(Command::Fav { nickname }),
            Err(e) => Err(e),
        }
    } else if same_text(c, "unfav") {
        match nickname_between(input, a, b, "usage: /unfav <nickname>") {
            Ok(nickname) => Ok(Command::Unfav { nickname }),
            Err(e) => Err(e),
        }
    } else if same_text(c, "h") || same_text(c, "help") {
        Ok(Command::Help)
    } else {
        let mut text = String::from_str("unknown command: /");
        text.append(c);
        Err(ParseError(text))
    }
}

} // verus!
