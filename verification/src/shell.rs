//! What the command-line shell decides: which command its arguments name,
//! what a line typed at the prompt asks for, and whether a table of a script
//! is an array or an object.
use vstd::prelude::*;
use vstd::string::*;

use crate::forth::{digit, digits_only, unsigned};
use crate::exchange::{spaced_words, spaced_words_read_back};
use crate::order::chars_of;
use crate::text::{is_space, same_text, texts, trim, trimmed, words};

verus! {

/// The default threshold of the flux controller.
pub const DEFAULT_THRESHOLD: i64 = 5;

/// What the shell is asked to do.
#[derive(Debug, PartialEq, Eq)]
pub enum Command {
    /// Read scripts line by line.
    Repl,
    /// Start the node that turns text into planes.
    MeshAlgebra,
    /// Start a worker with a name.
    MeshWorker(String),
    /// Start the flux controller with a threshold.
    MeshNoether(i64),
    /// Show a Forth program, then run it.
    ForthDebug(String),
    /// Run a script.
    Eval(String),
    /// Run a Forth program.
    Forth(String),
    /// Run the script in a file.
    File(String),
    /// Show the usage.
    Help,
    /// Run the script on the standard input.
    Stdin,
}

/// Texts with a space between neighbours.
pub open spec fn spaced(s: Seq<Seq<char>>) -> Seq<char>
    decreases s.len(),
{
    if s.len() == 0 {
        Seq::empty()
    } else if s.len() == 1 {
        s[0]
    } else {
        spaced(s.drop_last()) + " "@ + s.last()
    }
}

/// The number that decimal digits denote.
pub open spec fn digits_number(s: Seq<char>) -> nat
    decreases s.len(),
{
    if s.len() == 0 {
        0
    } else {
        10 * digits_number(s.drop_last()) + (s.last() as int - '0' as int) as nat
    }
}

/// The number that an optional sign and decimal digits denote.
pub open spec fn signed_number(s: Seq<char>) -> int {
    if s.len() > 0 && s[0] == '-' {
        -(digits_number(s.skip(1)) as int)
    } else {
        digits_number(unsigned(s)) as int
    }
}

/// An optional sign and decimal digits, of a number that fits.
pub open spec fn reads_as_i64(s: Seq<char>) -> bool {
    digits_only(unsigned(s)) && i64::MIN <= signed_number(s) <= i64::MAX
}

/// The threshold that an argument names, or the default.
pub open spec fn threshold_of(args: Seq<Seq<char>>) -> int {
    if args.len() > 2 && reads_as_i64(args[2]) {
        signed_number(args[2])
    } else {
        DEFAULT_THRESHOLD as int
    }
}

/// The first argument after the program's name is a given one.
pub open spec fn flagged(args: Seq<Seq<char>>, flag: Seq<char>) -> bool {
    args.len() >= 2 && args[1] == flag
}

/// The first argument is a given one and an operand follows.
pub open spec fn flagged_with(args: Seq<Seq<char>>, flag: Seq<char>) -> bool {
    args.len() >= 3 && args[1] == flag
}

/// A command is the one that the arguments name, the first of them being the
/// program's name.
pub open spec fn is_command(c: Command, args: Seq<Seq<char>>, terminal: bool) -> bool {
    let rest = spaced(args.skip(2));
    if flagged(args, "--repl"@) || flagged(args, "-r"@) || args.len() == 1 && terminal {
        c is Repl
    } else if flagged(args, "--mesh-algebra"@) {
        c is MeshAlgebra
    } else if flagged(args, "--mesh-worker"@) {
        c is MeshWorker && c->MeshWorker_0@ == if args.len() > 2 {
            args[2]
        } else {
            "worker-0"@
        }
    } else if flagged(args, "--mesh-noether"@) {
        c is MeshNoether && c->MeshNoether_0 == threshold_of(args)
    } else if flagged(args, "--forth-debug"@) {
        c is ForthDebug && c->ForthDebug_0@ == rest
    } else if flagged_with(args, "-e"@) {
        c is Eval && c->Eval_0@ == rest
    } else if flagged_with(args, "--forth"@) {
        c is Forth && c->Forth_0@ == rest
    } else if flagged_with(args, "-f"@) {
        c is File && c->File_0@ == args[2]
    } else if flagged(args, "-h"@) || flagged(args, "--help"@) {
        c is Help
    } else {
        c is Stdin
    }
}

proof fn lemma_number_grows(s: Seq<char>, i: int)
    requires
        0 <= i <= s.len(),
    ensures
        digits_number(s.take(i)) <= digits_number(s),
    decreases s.len(),
{
    if i < s.len() {
        lemma_number_grows(s.drop_last(), i);
        assert(s.drop_last().take(i) =~= s.take(i));
    } else {
        assert(s.take(i) =~= s);
    }
}

/// Reads an optional sign and decimal digits.
pub fn read_i64(text: &str) -> (r: Option<i64>)
    ensures
        match r {
            Some(n) => reads_as_i64(text@) && n == signed_number(text@),
            None => !reads_as_i64(text@),
        },
{
    let s = chars_of(text);
    let negative = s.len() > 0 && s[0] == '-';
    let signed = s.len() > 0 && (s[0] == '+' || s[0] == '-');
    let start: usize = if signed {
        1
    } else {
        0
    };
    let ghost u = unsigned(text@);
    proof {
        assert(u =~= s@.skip(start as int));
    }
    if start == s.len() {
        return None;
    }
    let limit: u128 = 0x8000_0000_0000_0000;
    let mut value: u128 = 0;
    let mut i: usize = start;
    proof {
        assert(u.take(0) =~= Seq::empty());
    }
    while i < s.len()
        invariant
            start <= i <= s@.len(),
            s@ == text@,
            u == unsigned(text@),
            u == s@.skip(start as int),
            limit == 0x8000_0000_0000_0000,
            value <= limit,
            value == digits_number(u.take(i - start)),
            forall|j: int| 0 <= j < i - start ==> digit(#[trigger] u[j]),
        decreases s@.len() - i,
    {
        let c: char = s[i];
        proof {
            assert(u[i - start] == c);
        }
        if !('0' <= c && c <= '9') {
            return None;
        }
        proof {
            assert(u.take(i - start + 1).drop_last() =~= u.take(i - start));
            assert(u.take(i - start + 1).last() == c);
        }
        value = value * 10 + (c as u32 - '0' as u32) as u128;
        if value > limit {
            proof {
                lemma_number_grows(u, i - start + 1);
                if text@.len() > 0 && text@[0] == '-' {
                    assert(u == text@.skip(1));
                }
            }
            return None;
        }
        i = i + 1;
    }
    proof {
        assert(u.take(i - start) =~= u);
        if negative {
            assert(u == text@.skip(1));
        }
    }
    if negative {
        if value == limit {
            Some(i64::MIN)
        } else {
            Some(-(value as i64))
        }
    } else if value == limit {
        None
    } else {
        Some(value as i64)
    }
}

fn spaced_from(args: &[String], from: usize) -> (r: String)
    requires
        from <= args@.len(),
    ensures
        r@ == spaced(texts(args@).skip(from as int)),
{
    let ghost rest = texts(args@).skip(from as int);
    let mut r = String::new();
    let mut i: usize = from;
    proof {
        assert(rest.take(0) =~= Seq::empty());
    }
    while i < args.len()
        invariant
            from <= i <= args@.len(),
            rest == texts(args@).skip(from as int),
            r@ == spaced(rest.take(i - from)),
        decreases args@.len() - i,
    {
        proof {
            let next = rest.take(i - from + 1);
            assert(next.drop_last() =~= rest.take(i - from));
            assert(next.last() == args@[i as int]@);
            if i == from {
                assert(next[0] == args@[i as int]@);
                assert(r@ + args@[i as int]@ =~= args@[i as int]@);
            }
        }
        if i > from {
            r.append(" ");
        }
        r.append(args[i].as_str());
        i = i + 1;
    }
    proof {
        assert(rest.take(i - from) =~= rest);
    }
    r
}

/// The command that the arguments name.
pub fn command_of(args: &[String], terminal: bool) -> (c: Command)
    ensures
        is_command(c, texts(args@), terminal),
{
    let n: usize = args.len();
    if n < 2 {
        return if n == 1 && terminal {
            Command::Repl
        } else {
            Command::Stdin
        };
    }
    proof {
        assert(texts(args@)[1] == args@[1]@);
        if n >= 3 {
            assert(texts(args@)[2] == args@[2]@);
        }
    }
    let flag = args[1].as_str();
    if same_text(flag, "--repl") || same_text(flag, "-r") {
        Command::Repl
    } else if same_text(flag, "--mesh-algebra") {
        Command::MeshAlgebra
    } else if same_text(flag, "--mesh-worker") {
        Command::MeshWorker(
            if n > 2 {
                args[2].clone()
            } else {
                "worker-0".to_owned()
            },
        )
    } else if same_text(flag, "--mesh-noether") {
        let threshold: i64 = if n > 2 {
            match read_i64(args[2].as_str()) {
                Some(t) => t,
                None => DEFAULT_THRESHOLD,
            }
        } else {
            DEFAULT_THRESHOLD
        };
        Command::MeshNoether(threshold)
    } else if same_text(flag, "--forth-debug") {
        Command::ForthDebug(spaced_from(args, 2))
    } else if n >= 3 && same_text(flag, "-e") {
        Command::Eval(spaced_from(args, 2))
    } else if n >= 3 && same_text(flag, "--forth") {
        Command::Forth(spaced_from(args, 2))
    } else if n >= 3 && same_text(flag, "-f") {
        Command::File(args[2].clone())
    } else if same_text(flag, "-h") || same_text(flag, "--help") {
        Command::Help
    } else {
        Command::Stdin
    }
}

/// Whether a script holds nothing but white space.
pub fn is_blank(script: &str) -> (r: bool)
    ensures
        r == (trimmed(script@).len() == 0),
{
    chars_of(trim(script).as_str()).len() == 0
}

/// What a line typed at the prompt asks for.
#[derive(Debug, PartialEq, Eq)]
pub enum Line {
    /// Nothing.
    Blank,
    /// To leave.
    Quit,
    /// To run a script.
    Script(String),
}

/// What a line typed at the prompt asks for.
pub fn read_prompt_line(line: &str) -> (r: Line)
    ensures
        match r {
            Line::Blank => trimmed(line@).len() == 0,
            Line::Quit => trimmed(line@) == "exit"@ || trimmed(line@) == "quit"@,
            Line::Script(s) => {
                &&& s@ == trimmed(line@)
                &&& s@.len() > 0 && s@ != "exit"@ && s@ != "quit"@
            },
        },
{
    let text = trim(line);
    if chars_of(text.as_str()).len() == 0 {
        Line::Blank
    } else if same_text(text.as_str(), "exit") || same_text(text.as_str(), "quit") {
        Line::Quit
    } else {
        Line::Script(text)
    }
}

/// A key of a table: an integer, or the name that another key goes by.
#[derive(Debug, PartialEq, Eq)]
pub enum TableKey {
    Index(i64),
    Name(String),
}

/// How a table is laid out.
#[derive(Debug, PartialEq, Eq)]
pub enum Layout {
    /// An array: for each place the entry that stands there, where one does.
    Array(Vec<Option<usize>>),
    /// An object: for each entry its name.
    Object(Vec<String>),
}

/// An integer key that counts from one.
pub open spec fn counts(k: TableKey) -> bool {
    k matches TableKey::Index(i) && i >= 1
}

/// A table is an array: it has entries, and every key counts from one.
pub open spec fn is_array(keys: Seq<TableKey>) -> bool {
    keys.len() > 0 && forall|j: int| 0 <= j < keys.len() ==> counts(#[trigger] keys[j])
}

/// The largest integer key.
pub open spec fn largest(keys: Seq<TableKey>) -> int
    decreases keys.len(),
{
    if keys.len() == 0 {
        0
    } else {
        let before = largest(keys.drop_last());
        match keys.last() {
            TableKey::Index(i) if i > before => i as int,
            _ => before,
        }
    }
}

/// The last entry with an integer key.
pub open spec fn entry_at(keys: Seq<TableKey>, at: int) -> Option<int>
    decreases keys.len(),
{
    if keys.len() == 0 {
        None
    } else if keys.last() matches TableKey::Index(i) && i == at {
        Some(keys.len() - 1)
    } else {
        entry_at(keys.drop_last(), at)
    }
}

/// A place of an array, as a number.
pub open spec fn place(slot: Option<usize>) -> Option<int> {
    match slot {
        Some(i) => Some(i as int),
        None => None,
    }
}

/// The decimal text of an integer.
pub open spec fn integer_text(n: int) -> Seq<char> {
    if n < 0 {
        "-"@ + crate::text::decimal_text((-n) as nat)
    } else {
        crate::text::decimal_text(n as nat)
    }
}

/// The name that a key goes by in an object.
pub open spec fn key_name(k: TableKey) -> Seq<char> {
    match k {
        TableKey::Index(i) => integer_text(i as int),
        TableKey::Name(s) => s@,
    }
}

/// The decimal text of an integer.
pub fn integer_string(n: i64) -> (r: String)
    ensures
        r@ == integer_text(n as int),
{
    if n == i64::MIN {
        let mut r = "-".to_owned();
        r.append(crate::text::decimal_string(0x8000_0000_0000_0000).as_str());
        r
    } else if n < 0 {
        let mut r = "-".to_owned();
        r.append(crate::text::decimal_string((-n) as u64).as_str());
        r
    } else {
        crate::text::decimal_string(n as u64)
    }
}

/// Lays out a table with given keys.
pub fn table_layout(keys: &[TableKey]) -> (r: Layout)
    requires
        forall|j: int|
            0 <= j < keys@.len() ==> (#[trigger] keys@[j] matches TableKey::Index(i) ==> i
                <= usize::MAX),
    ensures
        match r {
            Layout::Array(slots) => {
                &&& is_array(keys@)
                &&& slots@.len() == largest(keys@)
                &&& forall|j: int|
                    0 <= j < slots@.len() ==> place(#[trigger] slots@[j]) == entry_at(
                        keys@,
                        j + 1,
                    )
            },
            Layout::Object(names) => {
                &&& !is_array(keys@)
                &&& texts(names@) == keys@.map_values(|k: TableKey| key_name(k))
            },
        },
{
    let mut array = keys.len() > 0;
    let mut slots: Vec<Option<usize>> = Vec::new();
    let mut k: usize = 0;
    proof {
        assert(keys@.take(0) =~= Seq::empty());
    }
    while k < keys.len()
        invariant
            k <= keys@.len(),
            forall|j: int|
                0 <= j < keys@.len() ==> (#[trigger] keys@[j] matches TableKey::Index(i) ==> i
                    <= usize::MAX),
            array == (keys@.len() > 0 && forall|j: int|
                0 <= j < k ==> counts(#[trigger] keys@[j])),
            array ==> slots@.len() == largest(keys@.take(k as int)),
            array ==> forall|j: int|
                0 <= j < slots@.len() ==> place(#[trigger] slots@[j]) == entry_at(
                    keys@.take(k as int),
                    j + 1,
                ),
        decreases keys@.len() - k,
    {
        proof {
            let next = keys@.take(k + 1);
            assert(next.drop_last() =~= keys@.take(k as int));
            assert(next.last() == keys@[k as int]);
            lemma_entry_bounded(keys@.take(k as int));
        }
        match &keys[k] {
            TableKey::Index(i) => {
                if *i >= 1 {
                    if array {
                        let at: usize = (*i - 1) as usize;
                        let ghost before = slots@;
                        while slots.len() <= at
                            invariant
                                before.len() <= slots@.len(),
                                forall|j: int|
                                    0 <= j < before.len() ==> #[trigger] slots@[j] == before[j],
                                forall|j: int|
                                    before.len() <= j < slots@.len() ==> (#[trigger] slots@[j])
                                        is None,
                                slots@.len() <= if before.len() <= at {
                                    at + 1
                                } else {
                                    before.len() as int
                                },
                            decreases at + 1 - slots@.len(),
                        {
                            slots.push(None);
                        }
                        slots.set(at, Some(k));
                        proof {
                            let now = keys@.take(k as int);
                            let next = keys@.take(k + 1);
                            assert(next.drop_last() =~= now);
                            assert(next.last() == keys@[k as int]);
                            assert forall|j: int| 0 <= j < slots@.len() implies place(
                                #[trigger] slots@[j],
                            ) == entry_at(next, j + 1) by {
                                if j == at {
                                    assert(entry_at(next, j + 1) == Some(k as int));
                                } else {
                                    assert(entry_at(next, j + 1) == entry_at(now, j + 1));
                                    if j < before.len() {
                                        assert(slots@[j] == before[j]);
                                    } else {
                                        assert(entry_at(now, j + 1) is None);
                                    }
                                }
                            }
                        }
                    }
                } else {
                    array = false;
                    assert(!counts(keys@[k as int]));
                }
            },
            TableKey::Name(_) => {
                array = false;
                assert(!counts(keys@[k as int]));
            },
        }
        k = k + 1;
    }
    proof {
        assert(keys@.take(k as int) =~= keys@);
    }
    if array {
        return Layout::Array(slots);
    }
    let mut names: Vec<String> = Vec::new();
    let mut j: usize = 0;
    while j < keys.len()
        invariant
            j <= keys@.len(),
            names@.len() == j,
            forall|i: int| 0 <= i < j ==> (#[trigger] names@[i])@ == key_name(keys@[i]),
        decreases keys@.len() - j,
    {
        let name = match &keys[j] {
            TableKey::Index(i) => integer_string(*i),
            TableKey::Name(s) => s.clone(),
        };
        names.push(name);
        j = j + 1;
    }
    proof {
        assert(texts(names@) =~= keys@.map_values(|k: TableKey| key_name(k)));
    }
    Layout::Object(names)
}

proof fn lemma_entry_bounded(keys: Seq<TableKey>)
    ensures
        forall|at: int| at > largest(keys) ==> (#[trigger] entry_at(keys, at)) is None || at <= 0,
        largest(keys) >= 0,
    decreases keys.len(),
{
    if keys.len() > 0 {
        lemma_entry_bounded(keys.drop_last());
        assert forall|at: int| at > largest(keys) implies (#[trigger] entry_at(keys, at)) is None
            || at <= 0 by {
            assert(entry_at(keys.drop_last(), at) is None || at <= 0);
        }
    }
}

/// The largest integer key bounds every other and is one of them, where there
/// is a positive one.
pub proof fn arrays_reach_to_their_largest_key(keys: Seq<TableKey>)
    requires
        is_array(keys),
    ensures
        largest(keys) >= 1,
        forall|j: int| 0 <= j < keys.len() ==> (#[trigger] keys[j])->Index_0 <= largest(keys),
        exists|j: int|
            0 <= j < keys.len() && (#[trigger] keys[j])->Index_0 == largest(keys),
    decreases keys.len(),
{
    let front = keys.drop_last();
    let last = keys.last();
    assert(counts(keys[keys.len() - 1]));
    if front.len() > 0 {
        assert forall|j: int| 0 <= j < front.len() implies counts(#[trigger] front[j]) by {
            assert(counts(keys[j]));
        }
        arrays_reach_to_their_largest_key(front);
        let j = choose|j: int|
            0 <= j < front.len() && (#[trigger] front[j])->Index_0 == largest(front);
        assert(keys[j] == front[j]);
        assert forall|j: int| 0 <= j < keys.len() implies (#[trigger] keys[j])->Index_0 <= largest(
            keys,
        ) by {
            if j < front.len() {
                assert(front[j] == keys[j]);
            }
        }
        assert(keys[keys.len() - 1] == last);
    } else {
        assert(largest(front) == 0);
        assert(keys[0] == last);
    }
}

/// A place of an array holds the entry with its number, the last where several
/// have it, and nothing where none has.
pub proof fn places_hold_their_entries(keys: Seq<TableKey>, at: int)
    ensures
        match entry_at(keys, at) {
            Some(j) => 0 <= j < keys.len() && keys[j] is Index && keys[j]->Index_0 == at
                && forall|i: int|
                j < i < keys.len() && (#[trigger] keys[i]) is Index ==> keys[i]->Index_0 != at,
            None => forall|i: int|
                0 <= i < keys.len() && (#[trigger] keys[i]) is Index ==> keys[i]->Index_0 != at,
        },
    decreases keys.len(),
{
    if keys.len() > 0 {
        let front = keys.drop_last();
        places_hold_their_entries(front, at);
        assert forall|i: int| 0 <= i < front.len() implies front[i] == #[trigger] keys[i] by {}
    }
}

/// Operands without white space read back from the text they are joined to.
pub proof fn operands_read_back(s: Seq<Seq<char>>)
    requires
        forall|i: int| 0 <= i < s.len() ==> (#[trigger] s[i]).len() > 0,
        forall|i: int, k: int|
            0 <= i < s.len() && 0 <= k < s[i].len() ==> !is_space(#[trigger] s[i][k]),
    ensures
        words(spaced(s)) == s,
{
    lemma_spaced(s);
    spaced_words_read_back(s);
}

proof fn lemma_spaced(s: Seq<Seq<char>>)
    ensures
        spaced(s) == spaced_words(s),
    decreases s.len(),
{
    reveal_strlit(" ");
    if s.len() > 1 {
        lemma_spaced(s.drop_last());
        assert(spaced(s.drop_last()) + " "@ =~= spaced(s.drop_last()).push(' '));
    }
}

/// What each flag asks for.
pub proof fn flags_name_their_commands(c: Command, args: Seq<Seq<char>>, terminal: bool)
    requires
        is_command(c, args, terminal),
        args.len() >= 1,
    ensures
        args.len() == 1 ==> (c is Repl <==> terminal) && (c is Stdin <==> !terminal),
        args.len() >= 2 && (args[1] == "--repl"@ || args[1] == "-r"@) ==> c is Repl,
        args.len() >= 2 && args[1] == "--mesh-algebra"@ ==> c is MeshAlgebra,
        args.len() == 2 && args[1] == "--mesh-worker"@ ==> c is MeshWorker && c->MeshWorker_0@
            == "worker-0"@,
        args.len() >= 3 && args[1] == "--mesh-worker"@ ==> c is MeshWorker && c->MeshWorker_0@
            == args[2],
        args.len() == 2 && args[1] == "--mesh-noether"@ ==> c is MeshNoether && c->MeshNoether_0
            == 5,
        args.len() >= 3 && args[1] == "--mesh-noether"@ && reads_as_i64(args[2]) ==> c
            is MeshNoether && c->MeshNoether_0 == signed_number(args[2]),
        args.len() >= 2 && args[1] == "--forth-debug"@ ==> c is ForthDebug && c->ForthDebug_0@
            == spaced(args.skip(2)),
        args.len() >= 3 && args[1] == "-e"@ ==> c is Eval && c->Eval_0@ == spaced(args.skip(2)),
        args.len() >= 3 && args[1] == "--forth"@ ==> c is Forth && c->Forth_0@ == spaced(
            args.skip(2),
        ),
        args.len() >= 3 && args[1] == "-f"@ ==> c is File && c->File_0@ == args[2],
        args.len() == 2 && (args[1] == "-e"@ || args[1] == "--forth"@ || args[1] == "-f"@) ==> c
            is Stdin,
        args.len() >= 2 && (args[1] == "-h"@ || args[1] == "--help"@) ==> c is Help,
{
    reveal_strlit("--repl");
    reveal_strlit("-r");
    reveal_strlit("--mesh-algebra");
    reveal_strlit("--mesh-worker");
    reveal_strlit("--mesh-noether");
    reveal_strlit("--forth-debug");
    reveal_strlit("-e");
    reveal_strlit("--forth");
    reveal_strlit("-f");
    reveal_strlit("-h");
    reveal_strlit("--help");
    assert("--mesh-algebra"@[7] == 'a' && "--mesh-noether"@[7] == 'n');
    assert("--mesh-worker"@[2] == 'm' && "--forth-debug"@[2] == 'f');
    assert("--repl"@[2] == 'r' && "--help"@[2] == 'h');
    assert("-r"@[1] == 'r' && "-e"@[1] == 'e' && "-f"@[1] == 'f' && "-h"@[1] == 'h');
    assert("-r"@.len() == 2 && "-e"@.len() == 2 && "-f"@.len() == 2 && "-h"@.len() == 2);
    assert("--repl"@.len() == 6 && "--help"@.len() == 6 && "--forth"@.len() == 7);
    assert("--mesh-worker"@.len() == 13 && "--forth-debug"@.len() == 13);
    assert("--mesh-algebra"@.len() == 14 && "--mesh-noether"@.len() == 14);
}

/// The decimal text of an integer reads back as the integer.
pub proof fn integers_read_back(n: int)
    requires
        i64::MIN <= n <= i64::MAX,
    ensures
        reads_as_i64(integer_text(n)),
        signed_number(integer_text(n)) == n,
{
    reveal_strlit("-");
    let size = if n < 0 {
        (-n) as nat
    } else {
        n as nat
    };
    let text = integer_text(n);
    let d = crate::text::decimal_text(size);
    lemma_digits_number(size);
    if n < 0 {
        assert(text.skip(1) =~= d);
        assert(text[0] == '-');
    } else {
        assert(d[0] != '-' && d[0] != '+');
    }
}

proof fn lemma_digits_number(n: nat)
    ensures
        digits_only(crate::text::decimal_text(n)),
        digits_number(crate::text::decimal_text(n)) == n,
        crate::text::decimal_text(n).len() > 0,
        forall|i: int|
            0 <= i < crate::text::decimal_text(n).len() ==> '0' <= #[trigger] crate::text::decimal_text(
                n,
            )[i] <= '9',
    decreases n,
{
    let text = crate::text::decimal_text(n);
    let ds = crate::text::digits(n);
    if n >= 10 {
        let front = crate::text::decimal_text(n / 10);
        lemma_digits_number(n / 10);
        assert(text.drop_last() =~= front);
        assert forall|i: int| 0 <= i < text.len() implies '0' <= #[trigger] text[i] <= '9' by {
            if i < front.len() {
                assert(text[i] == front[i]);
            }
        }
    } else {
        assert(text.drop_last() =~= Seq::empty());
        assert(digits_number(text.drop_last()) == 0);
    }
    assert forall|i: int| 0 <= i < text.len() implies digit(#[trigger] text[i]) by {
        assert('0' <= text[i] <= '9');
    }
    assert(text.last() as int - '0' as int == n % 10);
}

} // verus!
