//! Command data model: arguments, commands, blocks, and the argument
//! consumer used for order-independent argument processing.

use vstd::prelude::*;

verus! {

use vstd::multiset::Multiset;
use vstd::string::StringExecFns;

/// Mathematical model of an [`Argument`].
pub struct ArgumentV {
    pub key: Option<Seq<char>>,
    pub value: Seq<char>,
}

/// Mathematical model of a [`Command`].
pub struct CommandV {
    pub name: Seq<char>,
    pub args: Seq<ArgumentV>,
    pub prefix: Option<Seq<char>>,
    pub silent: bool,
    pub fail: bool,
    pub tags: Seq<Seq<char>>,
    pub line_number: nat,
}

/// Mathematical model of a [`Block`].
pub struct BlockV {
    pub commands: Seq<CommandV>,
    pub literal: Seq<char>,
    pub line_number: nat,
}

/// A command argument.
#[derive(Clone, Debug, PartialEq, Eq)]
pub struct Argument {
    /// The argument key, for `key=value` style arguments. Not guaranteed to be
    /// unique, the runner can handle this as desired.
    pub key: Option<String>,
    /// The argument value. Can be empty.
    pub value: String,
}

impl View for Argument {
    type V = ArgumentV;

    open spec fn view(&self) -> ArgumentV {
        ArgumentV {
            key: match self.key {
                Some(k) => Some(k@),
                None => None,
            },
            value: self.value@,
        }
    }
}

/// The name of an argument: its key if present, else its value.
pub open spec fn spec_name(a: ArgumentV) -> Seq<char> {
    match a.key {
        Some(k) => k,
        None => a.value,
    }
}

/// True when the argument is a `key=value` argument with the given key.
pub open spec fn has_key(a: ArgumentV, key: Seq<char>) -> bool {
    a.key == Some(key)
}

/// True when the argument is a `key=value` argument.
pub open spec fn is_keyed(a: ArgumentV) -> bool {
    a.key is Some
}

/// The last argument with the given key, if any.
pub open spec fn find_last(s: Seq<ArgumentV>, key: Seq<char>) -> Option<ArgumentV>
    decreases s.len(),
{
    if s.len() == 0 {
        None
    } else if has_key(s.last(), key) {
        Some(s.last())
    } else {
        find_last(s.drop_last(), key)
    }
}

/// The arguments that do not carry the given key, in order.
pub open spec fn without_key(s: Seq<ArgumentV>, key: Seq<char>) -> Seq<ArgumentV>
    decreases s.len(),
{
    if s.len() == 0 {
        Seq::empty()
    } else if has_key(s[0], key) {
        without_key(s.drop_first(), key)
    } else {
        seq![s[0]] + without_key(s.drop_first(), key)
    }
}

/// The `key=value` arguments, in order.
pub open spec fn keyed_of(s: Seq<ArgumentV>) -> Seq<ArgumentV>
    decreases s.len(),
{
    if s.len() == 0 {
        Seq::empty()
    } else if is_keyed(s[0]) {
        seq![s[0]] + keyed_of(s.drop_first())
    } else {
        keyed_of(s.drop_first())
    }
}

/// The positional (un-keyed) arguments, in order.
pub open spec fn pos_of(s: Seq<ArgumentV>) -> Seq<ArgumentV>
    decreases s.len(),
{
    if s.len() == 0 {
        Seq::empty()
    } else if is_keyed(s[0]) {
        pos_of(s.drop_first())
    } else {
        seq![s[0]] + pos_of(s.drop_first())
    }
}

/// The index of the first `key=value` argument, if any.
pub open spec fn first_keyed(s: Seq<ArgumentV>) -> Option<int>
    decreases s.len(),
{
    if s.len() == 0 {
        None
    } else if is_keyed(s[0]) {
        Some(0int)
    } else {
        match first_keyed(s.drop_first()) {
            Some(i) => Some(i + 1),
            None => None,
        }
    }
}

/// The index of the first positional argument, if any.
pub open spec fn first_pos(s: Seq<ArgumentV>) -> Option<int>
    decreases s.len(),
{
    if s.len() == 0 {
        None
    } else if !is_keyed(s[0]) {
        Some(0int)
    } else {
        match first_pos(s.drop_first()) {
            Some(i) => Some(i + 1),
            None => None,
        }
    }
}

impl Argument {
    /// Returns a name for the argument: the key if given, else the value.
    pub fn name(&self) -> (r: &str)
        ensures
            r@ == spec_name(self@),
    {
        match &self.key {
            Some(key) => key.as_str(),
            None => self.value.as_str(),
        }
    }

    /// Parses the argument value as a T, with an improved error message.
    /// Relies on str::parse / T::from_str for the conversion itself; the
    /// error message embeds the Display text of the implementation's error.
    #[verifier::external_body]
    pub fn parse<T: core::str::FromStr>(&self) -> (r: Result<T, String>) where
        <T as core::str::FromStr>::Err: core::fmt::Display,

        ensures
            r matches Err(m) ==> exists|detail: Seq<char>|
                m@ == "invalid argument '"@ + self.value@ + "': "@ + detail,
    {
        self.value.parse().map_err(|e| format!("invalid argument '{}': {e}", self.value))
    }
}

/// A command.
#[derive(Clone, Debug, PartialEq)]
pub struct Command {
    /// The name of the command. Never empty.
    pub name: String,
    /// The command's arguments, in the given order.
    pub args: Vec<Argument>,
    /// The command prefix, if given. Applied to the command's output.
    pub prefix: Option<String>,
    /// Silences the output of this command. This is handled automatically,
    /// the runner does not have to take this into account.
    pub silent: bool,
    /// Expects the command to fail, using the failure message as output.
    pub fail: bool,
    /// Bracketed tag strings, passed through to the runner.
    pub tags: Vec<String>,
    /// The command's line number position in the script.
    pub line_number: usize,
}

/// The models of a sequence of arguments.
pub open spec fn args_view(s: Seq<Argument>) -> Seq<ArgumentV> {
    Seq::new(s.len(), |i: int| s[i]@)
}

/// The models of a sequence of strings.
pub open spec fn strs_view(s: Seq<String>) -> Seq<Seq<char>> {
    Seq::new(s.len(), |i: int| s[i]@)
}

impl View for Command {
    type V = CommandV;

    open spec fn view(&self) -> CommandV {
        CommandV {
            name: self.name@,
            args: args_view(self.args@),
            prefix: match self.prefix {
                Some(p) => Some(p@),
                None => None,
            },
            silent: self.silent,
            fail: self.fail,
            tags: strs_view(self.tags@),
            line_number: self.line_number as nat,
        }
    }
}

impl Command {
    /// Returns an argument consumer, for more convenient argument processing.
    /// Does not affect [`Command::args`].
    pub fn consume_args(&self) -> (r: ArgumentConsumer<'_>)
        ensures
            r@ == self@.args,
    {
        ArgumentConsumer::new(self.args.as_slice())
    }
}

/// A block, consisting of multiple commands, and the literal script text of
/// its command section.
#[derive(Clone, Debug, PartialEq)]
pub struct Block {
    /// The commands in the block.
    pub commands: Vec<Command>,
    /// The literal string of the input commands. Used to generate the output.
    pub literal: String,
    /// The block's line number position in the script.
    pub line_number: usize,
}

/// The models of a sequence of commands.
pub open spec fn commands_view(s: Seq<Command>) -> Seq<CommandV> {
    Seq::new(s.len(), |i: int| s[i]@)
}

/// The models of a sequence of blocks.
pub open spec fn blocks_view(s: Seq<Block>) -> Seq<BlockV> {
    Seq::new(s.len(), |i: int| s[i]@)
}

impl View for Block {
    type V = BlockV;

    open spec fn view(&self) -> BlockV {
        BlockV {
            commands: commands_view(self.commands@),
            literal: self.literal@,
            line_number: self.line_number as nat,
        }
    }
}

/// The models of a sequence of argument references.
pub open spec fn ref_args_view(s: Seq<&Argument>) -> Seq<ArgumentV> {
    Seq::new(s.len(), |i: int| s[i]@)
}

/// Helper for argument processing, by returning and removing arguments on
/// demand. Created by [`Command::consume_args()`]. Intended for out-of-order
/// processing: arguments can be looked up by key or position, in any order.
pub struct ArgumentConsumer<'a> {
    args: Vec<&'a Argument>,
}

impl<'a> View for ArgumentConsumer<'a> {
    type V = Seq<ArgumentV>;

    closed spec fn view(&self) -> Seq<ArgumentV> {
        ref_args_view(self.args@)
    }
}

impl<'a> ArgumentConsumer<'a> {
    /// Creates a new argument consumer over the given arguments.
    fn new(args: &'a [Argument]) -> (r: ArgumentConsumer<'a>)
        ensures
            r@ == args_view(args@),
    {
        let n = args.len();
        let mut v: Vec<&'a Argument> = Vec::new();
        let mut i: usize = 0;
        while i < n
            invariant
                n == args@.len(),
                i <= n,
                v@.len() == i,
                forall|j: int| 0 <= j < i ==> v@[j] == &args[j],
            decreases n - i,
        {
            let a: &'a Argument = &args[i];
            v.push(a);
            i = i + 1;
        }
        let r = ArgumentConsumer { args: v };
        assert(r@ =~= args_view(args@));
        r
    }

    /// Returns and removes the next argument, if any.
    pub fn next(&mut self) -> (r: Option<&'a Argument>)
        ensures
            old(self)@.len() == 0 ==> r is None && final(self)@ == old(self)@,
            old(self)@.len() > 0 ==> (r matches Some(a) && a@ == old(self)@[0] && final(self)@
                == old(self)@.drop_first()),
    {
        if self.args.len() == 0 {
            None
        } else {
            let a = self.args.remove(0);
            assert(self@ =~= old(self)@.drop_first());
            Some(a)
        }
    }

    /// Finds the index of the last argument with the given key, if any.
    fn find_last_index(&self, key: &str) -> (r: Option<usize>)
        ensures
            match r {
                Some(j) => j < self@.len() && self@[j as int].key == Some(key@) && find_last(
                    self@,
                    key@,
                ) == Some(self@[j as int]),
                None => find_last(self@, key@) is None,
            },
    {
        let ghost s = self@;
        let mut j: usize = self.args.len();
        assert(s.take(j as int) =~= s);
        while j > 0
            invariant
                j <= self@.len(),
                s == self@,
                find_last(s, key@) == find_last(s.take(j as int), key@),
            decreases j,
        {
            let a: &Argument = self.args[j - 1];
            let found = match &a.key {
                Some(k) => crate::text::str_eq(k.as_str(), key),
                None => false,
            };
            proof {
                assert(s.take(j as int).last() == s[j - 1]);
                assert(s.take(j as int).drop_last() =~= s.take(j - 1));
            }
            if found {
                return Some(j - 1);
            }
            j = j - 1;
        }
        assert(s.take(0) =~= Seq::<ArgumentV>::empty());
        None
    }

    /// Removes every argument with the given key.
    fn retain_without_key(&mut self, key: &str)
        ensures
            final(self)@ == without_key(old(self)@, key@),
    {
        let ghost s = old(self)@;
        let n = self.args.len();
        let mut keep: Vec<&'a Argument> = Vec::new();
        let mut i: usize = 0;
        proof {
            assert(s.skip(0) =~= s);
            assert(ref_args_view(keep@) + without_key(s, key@) =~= without_key(s, key@));
        }
        while i < n
            invariant
                n == s.len(),
                i <= n,
                self@ == s,
                without_key(s, key@) =~= ref_args_view(keep@) + without_key(
                    s.skip(i as int),
                    key@,
                ),
            decreases n - i,
        {
            let a: &'a Argument = self.args[i];
            let matches_key = match &a.key {
                Some(k) => crate::text::str_eq(k.as_str(), key),
                None => false,
            };
            proof {
                assert(s.skip(i as int)[0] == s[i as int]);
                assert(s.skip(i as int).drop_first() =~= s.skip(i + 1));
            }
            if !matches_key {
                keep.push(a);
                proof {
                    assert(ref_args_view(keep@) =~= ref_args_view(keep@.drop_last()).push(
                        s[i as int],
                    ));
                    assert(seq![s[i as int]] + without_key(s.skip(i + 1), key@) =~= Seq::empty().push(
                        s[i as int],
                    ) + without_key(s.skip(i + 1), key@));
                }
            }
            i = i + 1;
        }
        proof {
            assert(s.skip(n as int) =~= Seq::<ArgumentV>::empty());
            assert(without_key(s, key@) =~= ref_args_view(keep@));
        }
        self.args = keep;
    }

    /// Looks up and removes a key/value argument by key. If multiple arguments
    /// use the same key, the last one is returned (but all are removed).
    pub fn lookup(&mut self, key: &str) -> (r: Option<&'a Argument>)
        ensures
            r matches Some(a) ==> find_last(old(self)@, key@) == Some(a@) && final(self)@
                == without_key(old(self)@, key@),
            r is None ==> find_last(old(self)@, key@) is None && final(self)@ == old(self)@,
    {
        match self.find_last_index(key) {
            Some(j) => {
                let a: &'a Argument = self.args[j];
                self.retain_without_key(key);
                Some(a)
            },
            None => None,
        }
    }

    /// Looks up and parses a key/value argument by key, removing all
    /// arguments with that key. If parsing errors, nothing is removed.
    /// Relies on str::parse / T::from_str through [`Argument::parse`]. The
    /// body is not verified, since Verus does not accept a `FromStr` bound on
    /// a verified function; it only routes between the verified lookup and
    /// removal steps ([`Self::find_last_index`], [`Self::retain_without_key`])
    /// and the trusted parse, whose contracts together give the clauses below.
    #[verifier::external_body]
    pub fn lookup_parse<T: core::str::FromStr>(&mut self, key: &str) -> (r: Result<
        Option<T>,
        String,
    >) where <T as core::str::FromStr>::Err: core::fmt::Display
        ensures
            find_last(old(self)@, key@) is None ==> (r matches Ok(o) && o is None && final(self)@
                == old(self)@),
            find_last(old(self)@, key@) is Some ==> (r matches Ok(o) ==> o is Some && final(self)@
                == without_key(old(self)@, key@)),
            r is Err ==> find_last(old(self)@, key@) is Some && final(self)@ == old(self)@,
            r matches Err(m) ==> exists|detail: Seq<char>|
                m@ == "invalid argument '"@ + find_last(old(self)@, key@)->Some_0.value + "': "@
                    + detail,
    {
        match self.find_last_index(key) {
            Some(j) => {
                let a: &'a Argument = self.args[j];
                match a.parse::<T>() {
                    Ok(v) => {
                        self.retain_without_key(key);
                        Ok(Some(v))
                    },
                    Err(m) => Err(m),
                }
            },
            None => Ok(None),
        }
    }

    /// Returns and removes the next key/value argument, if any.
    pub fn next_key(&mut self) -> (r: Option<&'a Argument>)
        ensures
            match first_keyed(old(self)@) {
                Some(i) => r matches Some(a) && a@ == old(self)@[i] && final(self)@ == old(
                    self,
                )@.remove(i),
                None => r is None && final(self)@ == old(self)@,
            },
    {
        let ghost s = self@;
        let n = self.args.len();
        let mut i: usize = 0;
        while i < n
            invariant
                n == s.len(),
                i <= n,
                self@ == s,
                old(self)@ == s,
                forall|j: int| 0 <= j < i ==> !is_keyed(s[j]),
            decreases n - i,
        {
            if self.args[i].key.is_some() {
                let a = self.args.remove(i);
                proof {
                    lemma_first_keyed_at(s, i as int);
                    assert(a@ == s[i as int]);
                    assert(self@ =~= s.remove(i as int));
                }
                return Some(a);
            }
            i = i + 1;
        }
        proof {
            lemma_first_keyed_none(s);
        }
        None
    }

    /// Returns and removes the next positional argument, if any.
    pub fn next_pos(&mut self) -> (r: Option<&'a Argument>)
        ensures
            match first_pos(old(self)@) {
                Some(i) => r matches Some(a) && a@ == old(self)@[i] && final(self)@ == old(
                    self,
                )@.remove(i),
                None => r is None && final(self)@ == old(self)@,
            },
    {
        let ghost s = self@;
        let n = self.args.len();
        let mut i: usize = 0;
        while i < n
            invariant
                n == s.len(),
                i <= n,
                self@ == s,
                old(self)@ == s,
                forall|j: int| 0 <= j < i ==> is_keyed(s[j]),
            decreases n - i,
        {
            if self.args[i].key.is_none() {
                let a = self.args.remove(i);
                proof {
                    lemma_first_pos_at(s, i as int);
                    assert(a@ == s[i as int]);
                    assert(self@ =~= s.remove(i as int));
                }
                return Some(a);
            }
            i = i + 1;
        }
        proof {
            lemma_first_pos_none(s);
        }
        None
    }

    /// Rejects any remaining arguments with an error naming the first one.
    pub fn reject_rest(&self) -> (r: Result<(), String>)
        ensures
            r is Ok <==> self@.len() == 0,
            r matches Err(m) ==> self@.len() > 0 && m@ == "invalid argument '"@ + spec_name(
                self@[0],
            ) + "'"@,
    {
        if self.args.len() == 0 {
            return Ok(());
        }
        let first: &Argument = self.args[0];
        let mut m = String::new();
        m.append("invalid argument '");
        m.append(first.name());
        m.append("'");
        assert(m@ =~= "invalid argument '"@ + spec_name(self@[0]) + "'"@);
        Err(m)
    }

    /// Returns and removes all remaining arguments.
    pub fn rest(&mut self) -> (r: Vec<&'a Argument>)
        ensures
            ref_args_view(r@) == old(self)@,
            final(self)@.len() == 0,
    {
        let mut out: Vec<&'a Argument> = Vec::new();
        core::mem::swap(&mut out, &mut self.args);
        assert(ref_args_view(out@) =~= old(self)@);
        assert(self@ =~= Seq::<ArgumentV>::empty());
        out
    }

    /// Returns and removes all remaining key/value arguments.
    pub fn rest_key(&mut self) -> (r: Vec<&'a Argument>)
        ensures
            ref_args_view(r@) == keyed_of(old(self)@),
            final(self)@ == pos_of(old(self)@),
    {
        let ghost s = old(self)@;
        let n = self.args.len();
        let mut out: Vec<&'a Argument> = Vec::new();
        let mut keep: Vec<&'a Argument> = Vec::new();
        let mut i: usize = 0;
        proof {
            assert(s.skip(0) =~= s);
            assert(ref_args_view(out@) + keyed_of(s) =~= keyed_of(s));
            assert(ref_args_view(keep@) + pos_of(s) =~= pos_of(s));
        }
        while i < n
            invariant
                n == s.len(),
                i <= n,
                self@ == s,
                keyed_of(s) =~= ref_args_view(out@) + keyed_of(s.skip(i as int)),
                pos_of(s) =~= ref_args_view(keep@) + pos_of(s.skip(i as int)),
            decreases n - i,
        {
            let a: &'a Argument = self.args[i];
            proof {
                assert(s.skip(i as int)[0] == s[i as int]);
                assert(s.skip(i as int).drop_first() =~= s.skip(i + 1));
            }
            if a.key.is_some() {
                out.push(a);
                proof {
                    assert(ref_args_view(out@) =~= ref_args_view(out@.drop_last()).push(
                        s[i as int],
                    ));
                    assert(seq![s[i as int]] + keyed_of(s.skip(i + 1)) =~= Seq::empty().push(
                        s[i as int],
                    ) + keyed_of(s.skip(i + 1)));
                }
            } else {
                keep.push(a);
                proof {
                    assert(ref_args_view(keep@) =~= ref_args_view(keep@.drop_last()).push(
                        s[i as int],
                    ));
                    assert(seq![s[i as int]] + pos_of(s.skip(i + 1)) =~= Seq::empty().push(
                        s[i as int],
                    ) + pos_of(s.skip(i + 1)));
                }
            }
            i = i + 1;
        }
        proof {
            assert(s.skip(n as int) =~= Seq::<ArgumentV>::empty());
            assert(keyed_of(s) =~= ref_args_view(out@));
            assert(pos_of(s) =~= ref_args_view(keep@));
        }
        self.args = keep;
        out
    }

    /// Returns and removes all remaining positional arguments.
    pub fn rest_pos(&mut self) -> (r: Vec<&'a Argument>)
        ensures
            ref_args_view(r@) == pos_of(old(self)@),
            final(self)@ == keyed_of(old(self)@),
    {
        let ghost s = old(self)@;
        let n = self.args.len();
        let mut out: Vec<&'a Argument> = Vec::new();
        let mut keep: Vec<&'a Argument> = Vec::new();
        let mut i: usize = 0;
        proof {
            assert(s.skip(0) =~= s);
            assert(ref_args_view(out@) + pos_of(s) =~= pos_of(s));
            assert(ref_args_view(keep@) + keyed_of(s) =~= keyed_of(s));
        }
        while i < n
            invariant
                n == s.len(),
                i <= n,
                self@ == s,
                pos_of(s) =~= ref_args_view(out@) + pos_of(s.skip(i as int)),
                keyed_of(s) =~= ref_args_view(keep@) + keyed_of(s.skip(i as int)),
            decreases n - i,
        {
            let a: &'a Argument = self.args[i];
            proof {
                assert(s.skip(i as int)[0] == s[i as int]);
                assert(s.skip(i as int).drop_first() =~= s.skip(i + 1));
            }
            if a.key.is_none() {
                out.push(a);
                proof {
                    assert(ref_args_view(out@) =~= ref_args_view(out@.drop_last()).push(
                        s[i as int],
                    ));
                    assert(seq![s[i as int]] + pos_of(s.skip(i + 1)) =~= Seq::empty().push(
                        s[i as int],
                    ) + pos_of(s.skip(i + 1)));
                }
            } else {
                keep.push(a);
                proof {
                    assert(ref_args_view(keep@) =~= ref_args_view(keep@.drop_last()).push(
                        s[i as int],
                    ));
                    assert(seq![s[i as int]] + keyed_of(s.skip(i + 1)) =~= Seq::empty().push(
                        s[i as int],
                    ) + keyed_of(s.skip(i + 1)));
                }
            }
            i = i + 1;
        }
        proof {
            assert(s.skip(n as int) =~= Seq::<ArgumentV>::empty());
            assert(pos_of(s) =~= ref_args_view(out@));
            assert(keyed_of(s) =~= ref_args_view(keep@));
        }
        self.args = keep;
        out
    }
}

/// If the first `i` arguments carry no key and argument `i` does, then `i` is
/// the index of the first keyed argument.
proof fn lemma_first_keyed_at(s: Seq<ArgumentV>, i: int)
    requires
        0 <= i < s.len(),
        is_keyed(s[i]),
        forall|j: int| 0 <= j < i ==> !is_keyed(s[j]),
    ensures
        first_keyed(s) == Some(i),
    decreases i,
{
    if i > 0 {
        lemma_first_keyed_at(s.drop_first(), i - 1);
    }
}

/// If no argument carries a key, there is no first keyed argument.
proof fn lemma_first_keyed_none(s: Seq<ArgumentV>)
    requires
        forall|j: int| 0 <= j < s.len() ==> !is_keyed(s[j]),
    ensures
        first_keyed(s) is None,
    decreases s.len(),
{
    if s.len() > 0 {
        lemma_first_keyed_none(s.drop_first());
    }
}

/// If the first `i` arguments carry keys and argument `i` does not, then `i`
/// is the index of the first positional argument.
proof fn lemma_first_pos_at(s: Seq<ArgumentV>, i: int)
    requires
        0 <= i < s.len(),
        !is_keyed(s[i]),
        forall|j: int| 0 <= j < i ==> is_keyed(s[j]),
    ensures
        first_pos(s) == Some(i),
    decreases i,
{
    if i > 0 {
        lemma_first_pos_at(s.drop_first(), i - 1);
    }
}

/// If every argument carries a key, there is no first positional argument.
proof fn lemma_first_pos_none(s: Seq<ArgumentV>)
    requires
        forall|j: int| 0 <= j < s.len() ==> is_keyed(s[j]),
    ensures
        first_pos(s) is None,
    decreases s.len(),
{
    if s.len() > 0 {
        lemma_first_pos_none(s.drop_first());
    }
}

/// Law: the positional and keyed arguments partition a command's argument
/// list. Together they hold exactly the original arguments (as a multiset),
/// and each subset keeps the original relative order by construction
/// ([`pos_of`] and [`keyed_of`] preserve order).
pub proof fn lemma_argument_parity(args: Seq<ArgumentV>)
    ensures
        pos_of(args).to_multiset().add(keyed_of(args).to_multiset()) =~= args.to_multiset(),
    decreases args.len(),
{
    broadcast use vstd::seq_lib::group_to_multiset_ensures;

    if args.len() == 0 {
        assert(pos_of(args).to_multiset() =~= Multiset::empty());
        assert(keyed_of(args).to_multiset() =~= Multiset::empty());
        assert(args.to_multiset() =~= Multiset::empty());
    } else {
        let t = args.drop_first();
        lemma_argument_parity(t);
        assert(args =~= seq![args[0]] + t);
        vstd::seq_lib::lemma_multiset_commutative(seq![args[0]], t);
        assert(seq![args[0]].to_multiset() =~= Multiset::empty().insert(args[0])) by {
            assert(seq![args[0]] =~= Seq::empty().push(args[0]));
        }
        if is_keyed(args[0]) {
            vstd::seq_lib::lemma_multiset_commutative(seq![args[0]], keyed_of(t));
            assert(keyed_of(args) == seq![args[0]] + keyed_of(t));
            assert(pos_of(args) == pos_of(t));
        } else {
            vstd::seq_lib::lemma_multiset_commutative(seq![args[0]], pos_of(t));
            assert(pos_of(args) == seq![args[0]] + pos_of(t));
            assert(keyed_of(args) == keyed_of(t));
        }
    }
}

} // verus!
