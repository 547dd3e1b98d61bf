//! The commands of a node's interactive prompt, and how a typed line reads as
//! one.
//!
//! A line is trimmed of white space; its first word is the command and the
//! rest, trimmed again, its argument: `add <item>`, `remove <item>` (or `rm`),
//! `list` (or `ls`) and `quit` (or `exit`).
use vstd::prelude::*;

verus! {

/// What a typed line asks for, with its argument as characters.
#[derive(Debug, Clone, PartialEq, Eq)]
pub enum Command {
    /// Add the item to the shared list.
    Add(Vec<char>),
    /// Remove the item from the shared list.
    Remove(Vec<char>),
    /// Show the items of the list.
    List,
    /// Leave the prompt.
    Quit,
    /// Anything else that is not blank.
    Unknown,
    /// A line of white space only.
    Blank,
}

/// The meaning of a typed line.
pub enum CommandSpec {
    Add(Seq<char>),
    Remove(Seq<char>),
    List,
    Quit,
    Unknown,
    Blank,
}

impl View for Command {
    type V = CommandSpec;

    open spec fn view(&self) -> CommandSpec {
        match self {
            Command::Add(a) => CommandSpec::Add(a@),
            Command::Remove(a) => CommandSpec::Remove(a@),
            Command::List => CommandSpec::List,
            Command::Quit => CommandSpec::Quit,
            Command::Unknown => CommandSpec::Unknown,
            Command::Blank => CommandSpec::Blank,
        }
    }
}

/// Whether `c` is white space as `char::is_whitespace` defines it: the
/// characters with Unicode's `White_Space` property.
pub open spec fn is_space(c: char) -> bool {
    let u = c as u32;
    ||| 0x9 <= u <= 0xD
    ||| u == 0x20
    ||| u == 0x85
    ||| u == 0xA0
    ||| u == 0x1680
    ||| 0x2000 <= u <= 0x200A
    ||| u == 0x2028
    ||| u == 0x2029
    ||| u == 0x202F
    ||| u == 0x205F
    ||| u == 0x3000
}

/// `s` without its leading white space.
pub open spec fn trim_start(s: Seq<char>) -> Seq<char>
    decreases s.len(),
{
    if s.len() > 0 && is_space(s[0]) {
        trim_start(s.drop_first())
    } else {
        s
    }
}

/// `s` without its trailing white space.
pub open spec fn trim_end(s: Seq<char>) -> Seq<char>
    decreases s.len(),
{
    if s.len() > 0 && is_space(s.last()) {
        trim_end(s.drop_last())
    } else {
        s
    }
}

/// `s` without leading and trailing white space.
pub open spec fn trim(s: Seq<char>) -> Seq<char> {
    trim_end(trim_start(s))
}

/// The length of the first word of `s`: the characters before its first
/// white space.
pub open spec fn word_len(s: Seq<char>) -> nat
    decreases s.len(),
{
    if s.len() == 0 || is_space(s[0]) {
        0
    } else {
        1 + word_len(s.drop_first())
    }
}

/// The command named by `word`, with the argument `arg`, on a line that is
/// not blank.
pub open spec fn command_from(word: Seq<char>, arg: Seq<char>) -> CommandSpec {
    if word == seq!['a', 'd', 'd'] && arg.len() > 0 {
        CommandSpec::Add(arg)
    } else if (word == seq!['r', 'e', 'm', 'o', 'v', 'e'] || word == seq!['r', 'm']) && arg.len()
        > 0 {
        CommandSpec::Remove(arg)
    } else if word == seq!['l', 'i', 's', 't'] || word == seq!['l', 's'] {
        CommandSpec::List
    } else if word == seq!['q', 'u', 'i', 't'] || word == seq!['e', 'x', 'i', 't'] {
        CommandSpec::Quit
    } else {
        CommandSpec::Unknown
    }
}

/// The command that `line` reads as: blank when it is all white space;
/// otherwise its first word names the command, and the rest after the white
/// space that ends the word, trimmed, is the argument.
pub open spec fn command_of(line: Seq<char>) -> CommandSpec {
    let t = trim(line);
    let n = word_len(t);
    let arg = if n < t.len() {
        trim(t.skip(n as int + 1))
    } else {
        Seq::empty()
    };
    if t.len() == 0 {
        CommandSpec::Blank
    } else {
        command_from(t.take(n as int), arg)
    }
}

/// Leading white space can be dropped before trimming the start.
proof fn lemma_trim_start_skip(s: Seq<char>, i: int)
    requires
        0 <= i <= s.len(),
        forall|k: int| 0 <= k < i ==> is_space(#[trigger] s[k]),
    ensures
        trim_start(s) == trim_start(s.skip(i)),
        i < s.len() && !is_space(s[i]) ==> trim_start(s.skip(i)) == s.skip(i),
        i == s.len() ==> trim_start(s.skip(i)).len() == 0,
    decreases i,
{
    if i > 0 {
        assert(s.drop_first().skip(i - 1) =~= s.skip(i));
        lemma_trim_start_skip(s.drop_first(), i - 1);
    } else {
        assert(s.skip(0) =~= s);
    }
    if i == s.len() {
        assert(s.skip(i) =~= Seq::<char>::empty());
    }
}

/// Trailing white space can be dropped before trimming the end.
proof fn lemma_trim_end_take(s: Seq<char>, j: int)
    requires
        0 <= j <= s.len(),
        forall|k: int| j <= k < s.len() ==> is_space(#[trigger] s[k]),
    ensures
        trim_end(s) == trim_end(s.take(j)),
        j > 0 && !is_space(s[j - 1]) ==> trim_end(s.take(j)) == s.take(j),
        j == 0 ==> trim_end(s.take(j)).len() == 0,
    decreases s.len() - j,
{
    if j < s.len() {
        assert(s.drop_last().take(j) =~= s.take(j));
        lemma_trim_end_take(s.drop_last(), j);
    } else {
        assert(s.take(j) =~= s);
    }
    if j == 0 {
        assert(s.take(0) =~= Seq::<char>::empty());
    }
}

/// The first word of `s` ends at the first white space.
proof fn lemma_word_len(s: Seq<char>, k: int)
    requires
        0 <= k <= s.len(),
        forall|q: int| 0 <= q < k ==> !is_space(#[trigger] s[q]),
        k == s.len() || is_space(s[k]),
    ensures
        word_len(s) == k,
    decreases k,
{
    if k > 0 {
        lemma_word_len(s.drop_first(), k - 1);
    }
}

/// Whether `c` is white space.
fn space(c: char) -> (r: bool)
    ensures
        r == is_space(c),
{
    let u: u32 = c as u32;
    (0x9 <= u && u <= 0xD) || u == 0x20 || u == 0x85 || u == 0xA0 || u == 0x1680 || (0x2000 <= u
        && u <= 0x200A) || u == 0x2028 || u == 0x2029 || u == 0x202F || u == 0x205F || u == 0x3000
}

/// Whether the characters `line[lo..hi]` are exactly `w`.
fn equals_word(line: &[char], lo: usize, hi: usize, w: &[char]) -> (r: bool)
    requires
        lo <= hi <= line@.len(),
    ensures
        r == (line@.subrange(lo as int, hi as int) == w@),
{
    if hi - lo != w.len() {
        return false;
    }
    let mut q: usize = 0;
    while q < w.len()
        invariant
            lo <= hi <= line@.len(),
            hi - lo == w@.len(),
            q <= w@.len(),
            forall|p: int| 0 <= p < q ==> line@[lo + p] == w@[p],
        decreases w@.len() - q,
    {
        if line[lo + q] != w[q] {
            proof {
                assert(line@.subrange(lo as int, hi as int)[q as int] != w@[q as int]);
            }
            return false;
        }
        q = q + 1;
    }
    proof {
        assert(line@.subrange(lo as int, hi as int) =~= w@);
    }
    true
}

/// The characters `line[lo..hi]`.
fn copy_range(line: &[char], lo: usize, hi: usize) -> (v: Vec<char>)
    requires
        lo <= hi <= line@.len(),
    ensures
        v@ == line@.subrange(lo as int, hi as int),
{
    let mut v: Vec<char> = Vec::new();
    let mut q: usize = lo;
    while q < hi
        invariant
            lo <= q <= hi <= line@.len(),
            v@ == line@.subrange(lo as int, q as int),
        decreases hi - q,
    {
        proof {
            assert(line@.subrange(lo as int, q + 1) =~= line@.subrange(lo as int, q as int).push(line@[q as int]));
        }
        v.push(line[q]);
        q = q + 1;
    }
    v
}

/// The line `s`, with white space before `i` and from `j` on, trims to
/// `s[i..j]`.
proof fn lemma_trimmed(s: Seq<char>, i: int, j: int)
    requires
        0 <= i <= j <= s.len(),
        forall|k: int| 0 <= k < i ==> is_space(#[trigger] s[k]),
        forall|k: int| j <= k < s.len() ==> is_space(#[trigger] s[k]),
        i < s.len() ==> !is_space(s[i]),
        j > i ==> !is_space(s[j - 1]),
    ensures
        trim(s) == s.subrange(i, j),
{
    lemma_trim_start_skip(s, i);
    let u = s.skip(i);
    assert forall|k: int| j - i <= k < u.len() implies is_space(#[trigger] u[k]) by {
        assert(u[k] == s[i + k]);
    };
    lemma_trim_end_take(u, j - i);
    assert(u.take(j - i) =~= s.subrange(i, j));
    if j > i {
        assert(u[j - i - 1] == s[j - 1]);
    }
}

/// In the trimmed line `s[i..j]`, the first word is `s[i..k]`.
proof fn lemma_first_word(s: Seq<char>, i: int, k: int, j: int)
    requires
        0 <= i <= k <= j <= s.len(),
        forall|q: int| i <= q < k ==> !is_space(#[trigger] s[q]),
        k == j || is_space(s[k]),
    ensures
        word_len(s.subrange(i, j)) == k - i,
        s.subrange(i, j).take(k - i) == s.subrange(i, k),
{
    let t = s.subrange(i, j);
    assert forall|q: int| 0 <= q < k - i implies !is_space(#[trigger] t[q]) by {
        assert(t[q] == s[i + q]);
    };
    if k < j {
        assert(t[k - i] == s[k]);
    }
    lemma_word_len(t, k - i);
    assert(t.take(k - i) =~= s.subrange(i, k));
}

/// In the trimmed line `s[i..j]` whose first word ends at the white space
/// `s[k]`, the argument is `s[a..j]`.
proof fn lemma_argument(s: Seq<char>, i: int, k: int, a: int, j: int)
    requires
        0 <= i <= k < a <= j <= s.len(),
        forall|q: int| k < q < a ==> is_space(#[trigger] s[q]),
        a < j ==> !is_space(s[a]),
        j > i ==> !is_space(s[j - 1]),
    ensures
        trim(s.subrange(i, j).skip(k - i + 1)) == s.subrange(a, j),
{
    let rest = s.subrange(i, j).skip(k - i + 1);
    assert(rest =~= s.subrange(k + 1, j));
    assert forall|q: int| 0 <= q < a - (k + 1) implies is_space(#[trigger] rest[q]) by {
        assert(rest[q] == s[k + 1 + q]);
    };
    lemma_trim_start_skip(rest, a - (k + 1));
    let v = s.subrange(a, j);
    assert(rest.skip(a - (k + 1)) =~= v);
    if a < j {
        assert(rest[a - (k + 1)] == s[a]);
    }
    lemma_trim_end_take(v, v.len() as int);
    assert(v.take(v.len() as int) =~= v);
    if a < j {
        assert(v[v.len() - 1] == s[j - 1]);
    }
}

/// Reads a typed line as a command.
pub fn parse_command(line: &[char]) -> (r: Command)
    ensures
        r@ == command_of(line@),
{
    let ghost s = line@;
    let n = line.len();
    let mut i: usize = 0;
    while i < n && space(line[i])
        invariant
            i <= n == s.len(),
            s == line@,
            forall|k: int| 0 <= k < i ==> is_space(#[trigger] s[k]),
        decreases n - i,
    {
        i = i + 1;
    }
    let mut j: usize = n;
    while j > i && space(line[j - 1])
        invariant
            i <= j <= n == s.len(),
            s == line@,
            forall|k: int| j <= k < n ==> is_space(#[trigger] s[k]),
        decreases j - i,
    {
        j = j - 1;
    }
    proof {
        lemma_trimmed(s, i as int, j as int);
    }
    if i == j {
        return Command::Blank;
    }
    let mut k: usize = i;
    while k < j && !space(line[k])
        invariant
            i <= k <= j <= n == s.len(),
            s == line@,
            forall|q: int| i <= q < k ==> !is_space(#[trigger] s[q]),
        decreases j - k,
    {
        k = k + 1;
    }
    proof {
        lemma_first_word(s, i as int, k as int, j as int);
    }
    let mut a: usize = j;
    if k < j {
        a = k + 1;
        while a < j && space(line[a])
            invariant
                k < a <= j <= n == s.len(),
                s == line@,
                forall|q: int| k < q < a ==> is_space(#[trigger] s[q]),
            decreases j - a,
        {
            a = a + 1;
        }
        proof {
            lemma_argument(s, i as int, k as int, a as int, j as int);
        }
    }
    let ghost t = s.subrange(i as int, j as int);
    let ghost word = s.subrange(i as int, k as int);
    let ghost arg = s.subrange(a as int, j as int);
    proof {
        assert(t.len() > 0);
        assert(word == t.take(word_len(t) as int));
        assert(word_len(t) == t.len() ==> arg.len() == 0);
        assert(word_len(t) < t.len() ==> trim(t.skip(word_len(t) as int + 1)) == arg);
    }
    classify(line, i, k, a, j)
}

/// The command whose word is `line[i..k]` and whose argument is `line[a..j]`.
fn classify(line: &[char], i: usize, k: usize, a: usize, j: usize) -> (r: Command)
    requires
        i <= k <= j <= line@.len(),
        a <= j,
    ensures
        r@ == command_from(line@.subrange(i as int, k as int), line@.subrange(a as int, j as int)),
{
    let word_add: [char; 3] = ['a', 'd', 'd'];
    let word_remove: [char; 6] = ['r', 'e', 'm', 'o', 'v', 'e'];
    let word_rm: [char; 2] = ['r', 'm'];
    let word_list: [char; 4] = ['l', 'i', 's', 't'];
    let word_ls: [char; 2] = ['l', 's'];
    let word_quit: [char; 4] = ['q', 'u', 'i', 't'];
    let word_exit: [char; 4] = ['e', 'x', 'i', 't'];
    proof {
        assert(word_add@ == seq!['a', 'd', 'd']);
        assert(word_remove@ == seq!['r', 'e', 'm', 'o', 'v', 'e']);
        assert(word_rm@ == seq!['r', 'm']);
        assert(word_list@ == seq!['l', 'i', 's', 't']);
        assert(word_ls@ == seq!['l', 's']);
        assert(word_quit@ == seq!['q', 'u', 'i', 't']);
        assert(word_exit@ == seq!['e', 'x', 'i', 't']);
    }
    let has_arg = a < j;
    if has_arg && equals_word(line, i, k, &word_add) {
        Command::Add(copy_range(line, a, j))
    } else if has_arg && (equals_word(line, i, k, &word_remove) || equals_word(
        line,
        i,
        k,
        &word_rm,
    )) {
        Command::Remove(copy_range(line, a, j))
    } else if equals_word(line, i, k, &word_list) || equals_word(line, i, k, &word_ls) {
        Command::List
    } else if equals_word(line, i, k, &word_quit) || equals_word(line, i, k, &word_exit) {
        Command::Quit
    } else {
        Command::Unknown
    }
}

/// Every character of `s` is white space.
pub open spec fn all_space(s: Seq<char>) -> bool {
    forall|k: int| 0 <= k < s.len() ==> is_space(#[trigger] s[k])
}

/// `s` has no white space.
pub open spec fn no_space(s: Seq<char>) -> bool {
    forall|k: int| 0 <= k < s.len() ==> !is_space(#[trigger] s[k])
}

/// A line made of white space, a word with no white space, white space, an
/// item that starts and ends with a non-space, and white space reads as that
/// word with the whole item as its argument.
proof fn lemma_word_and_item(
    lead: Seq<char>,
    word: Seq<char>,
    gap: Seq<char>,
    item: Seq<char>,
    trail: Seq<char>,
)
    requires
        all_space(lead),
        word.len() > 0,
        no_space(word),
        gap.len() > 0,
        all_space(gap),
        item.len() > 0,
        !is_space(item[0]),
        !is_space(item.last()),
        all_space(trail),
    ensures
        command_of(lead + word + gap + item + trail) == command_from(word, item),
{
    let line = lead + word + gap + item + trail;
    let i = lead.len() as int;
    let k = i + word.len();
    let a = k + gap.len();
    let j = a + item.len();
    assert forall|q: int| 0 <= q < i implies is_space(#[trigger] line[q]) by {
        assert(line[q] == lead[q]);
    };
    assert forall|q: int| j <= q < line.len() implies is_space(#[trigger] line[q]) by {
        assert(line[q] == trail[q - j]);
    };
    assert(line[i] == word[0]);
    assert(line[j - 1] == item[item.len() - 1]);
    lemma_trimmed(line, i, j);
    assert forall|q: int| i <= q < k implies !is_space(#[trigger] line[q]) by {
        assert(line[q] == word[q - i]);
    };
    assert(line[k] == gap[0]);
    lemma_first_word(line, i, k, j);
    assert forall|q: int| k < q < a implies is_space(#[trigger] line[q]) by {
        assert(line[q] == gap[q - k]);
    };
    assert(line[a] == item[0]);
    lemma_argument(line, i, k, a, j);
    assert(line.subrange(i, k) =~= word);
    assert(line.subrange(a, j) =~= item);
    let t = line.subrange(i, j);
    assert(word_len(t) < t.len());
}

/// `add`, `remove` and `rm` take the whole rest of the line as their item,
/// white space inside the item included: the line `<ws> add <ws> item <ws>`
/// adds `item`, and the lines `<ws> remove <ws> item <ws>` and
/// `<ws> rm <ws> item <ws>` remove that same `item`.
pub proof fn lemma_item_is_whole_rest(lead: Seq<char>, gap: Seq<char>, item: Seq<char>, trail: Seq<char>)
    requires
        all_space(lead),
        gap.len() > 0,
        all_space(gap),
        item.len() > 0,
        !is_space(item[0]),
        !is_space(item.last()),
        all_space(trail),
    ensures
        command_of(lead + seq!['a', 'd', 'd'] + gap + item + trail) == CommandSpec::Add(item),
        command_of(lead + seq!['r', 'e', 'm', 'o', 'v', 'e'] + gap + item + trail) == CommandSpec::Remove(item),
        command_of(lead + seq!['r', 'm'] + gap + item + trail) == CommandSpec::Remove(item),
{
    let add = seq!['a', 'd', 'd'];
    let remove = seq!['r', 'e', 'm', 'o', 'v', 'e'];
    let rm = seq!['r', 'm'];
    assert(no_space(add));
    assert(no_space(remove));
    assert(no_space(rm));
    lemma_word_and_item(lead, add, gap, item, trail);
    lemma_word_and_item(lead, remove, gap, item, trail);
    lemma_word_and_item(lead, rm, gap, item, trail);
    assert(add != remove && add != rm) by {
        assert(add.len() != remove.len() && add[0] != rm[0]);
    };
}

/// A line made of white space, a word with no white space and white space
/// reads as that word with no argument.
proof fn lemma_word_alone(lead: Seq<char>, word: Seq<char>, trail: Seq<char>)
    requires
        all_space(lead),
        word.len() > 0,
        no_space(word),
        all_space(trail),
    ensures
        command_of(lead + word + trail) == command_from(word, Seq::empty()),
{
    let line = lead + word + trail;
    let i = lead.len() as int;
    let k = i + word.len();
    assert forall|q: int| 0 <= q < i implies is_space(#[trigger] line[q]) by {
        assert(line[q] == lead[q]);
    };
    assert forall|q: int| k <= q < line.len() implies is_space(#[trigger] line[q]) by {
        assert(line[q] == trail[q - k]);
    };
    assert(line[i] == word[0]);
    assert(line[k - 1] == word[word.len() - 1]);
    lemma_trimmed(line, i, k);
    assert forall|q: int| i <= q < k implies !is_space(#[trigger] line[q]) by {
        assert(line[q] == word[q - i]);
    };
    lemma_first_word(line, i, k, k);
    assert(line.subrange(i, k) =~= word);
}

/// A line with a non-space keeps a non-space first character after trimming
/// its start.
proof fn lemma_trim_start_nonblank(s: Seq<char>)
    requires
        !all_space(s),
    ensures
        trim_start(s).len() > 0,
        !is_space(trim_start(s)[0]),
    decreases s.len(),
{
    if is_space(s[0]) {
        assert(!all_space(s.drop_first())) by {
            let k = choose|k: int| 0 <= k < s.len() && !is_space(s[k]);
            assert(s.drop_first()[k - 1] == s[k]);
        };
        lemma_trim_start_nonblank(s.drop_first());
    }
}

/// Trimming the end of a line that starts with a non-space leaves it
/// non-empty.
proof fn lemma_trim_end_nonblank(s: Seq<char>)
    requires
        s.len() > 0,
        !is_space(s[0]),
    ensures
        trim_end(s).len() > 0,
    decreases s.len(),
{
    if is_space(s.last()) {
        assert(s.len() > 1);
        assert(s.drop_last()[0] == s[0]);
        lemma_trim_end_nonblank(s.drop_last());
    }
}

/// A line of white space only is blank, and every other line is not.
pub proof fn lemma_blank_exactly_when_all_space(line: Seq<char>)
    ensures
        (command_of(line) == CommandSpec::Blank) <==> all_space(line),
{
    if all_space(line) {
        lemma_trim_start_skip(line, line.len() as int);
        assert(trim_start(line).len() == 0);
        assert(trim_start(line) =~= Seq::<char>::empty());
    } else {
        lemma_trim_start_nonblank(line);
        lemma_trim_end_nonblank(trim_start(line));
    }
}

/// `list` and `ls` list, `quit` and `exit` quit, whatever follows them on the
/// line; `add`, `remove` and `rm` with no item are not understood.
pub proof fn lemma_bare_commands(lead: Seq<char>, trail: Seq<char>)
    requires
        all_space(lead),
        all_space(trail),
    ensures
        command_of(lead + seq!['l', 'i', 's', 't'] + trail) == CommandSpec::List,
        command_of(lead + seq!['l', 's'] + trail) == CommandSpec::List,
        command_of(lead + seq!['q', 'u', 'i', 't'] + trail) == CommandSpec::Quit,
        command_of(lead + seq!['e', 'x', 'i', 't'] + trail) == CommandSpec::Quit,
        command_of(lead + seq!['a', 'd', 'd'] + trail) == CommandSpec::Unknown,
        command_of(lead + seq!['r', 'e', 'm', 'o', 'v', 'e'] + trail) == CommandSpec::Unknown,
        command_of(lead + seq!['r', 'm'] + trail) == CommandSpec::Unknown,
{
    let words = seq![
        seq!['l', 'i', 's', 't'],
        seq!['l', 's'],
        seq!['q', 'u', 'i', 't'],
        seq!['e', 'x', 'i', 't'],
        seq!['a', 'd', 'd'],
        seq!['r', 'e', 'm', 'o', 'v', 'e'],
        seq!['r', 'm'],
    ];
    assert forall|w: int| 0 <= w < words.len() implies no_space(#[trigger] words[w]) && words[w].len() > 0 by {};
    lemma_word_alone(lead, words[0], trail);
    lemma_word_alone(lead, words[1], trail);
    lemma_word_alone(lead, words[2], trail);
    lemma_word_alone(lead, words[3], trail);
    lemma_word_alone(lead, words[4], trail);
    lemma_word_alone(lead, words[5], trail);
    lemma_word_alone(lead, words[6], trail);
}

} // verus!
