//! The evaluator's decisions: which built-in a command names and what
//! running it prints. Nothing here prints; the caller does.

use crate::parser::{
    atoms_view, parse_of, try_parse, Atom, AtomData, AtomDataView, AtomView, Command, CommandView,
};
use crate::text::byte_len;
use vstd::prelude::*;
use vstd::slice::slice_subrange;

verus! {

/// A built-in command, as its author writes it.
pub trait CommandImpl {
    /// The name that commands call the built-in by.
    const NAME: &'static str;

    /// Whether the built-in can be called with `args`.
    spec fn accepts(&self, args: Seq<AtomView>) -> bool;

    /// The line that the built-in prints for `args`, if it prints one.
    spec fn line(&self, args: Seq<AtomView>) -> Option<Seq<char>>;

    /// The line to print for `args`, which the built-in must accept.
    fn call_impl(&self, args: &[Atom]) -> (line: Option<String>)
        requires
            self.accepts(atoms_view(args@)),
        ensures
            match self.line(atoms_view(args@)) {
                Some(text) => line is Some && line->0@ == text,
                None => line is None,
            },
    ;
}

/// A built-in command, as the evaluator calls it.
pub trait NativeCommand {
    /// The name that commands call the built-in by.
    spec fn called(&self) -> Seq<char>;

    /// Whether the built-in can be called with `args`.
    spec fn runs(&self, args: Seq<AtomView>) -> bool;

    /// The line that the built-in prints for `args`, if it prints one.
    spec fn prints(&self, args: Seq<AtomView>) -> Option<Seq<char>>;

    /// The name that commands call the built-in by.
    fn name(&self) -> (name: &'static str)
        ensures
            name@ == self.called(),
    ;

    /// The line to print for `args`, with which the built-in must run.
    fn call(&self, args: &[Atom]) -> (line: Option<String>)
        requires
            self.runs(atoms_view(args@)),
        ensures
            match self.prints(atoms_view(args@)) {
                Some(text) => line is Some && line->0@ == text,
                None => line is None,
            },
    ;
}

impl<T> NativeCommand for T where T: CommandImpl {
    open spec fn called(&self) -> Seq<char> {
        T::NAME@
    }

    open spec fn runs(&self, args: Seq<AtomView>) -> bool {
        self.accepts(args)
    }

    open spec fn prints(&self, args: Seq<AtomView>) -> Option<Seq<char>> {
        self.line(args)
    }

    fn name(&self) -> (name: &'static str) {
        Self::NAME
    }

    fn call(&self, args: &[Atom]) -> (line: Option<String>) {
        self.call_impl(args)
    }
}

/// The built-in that prints its first argument if that is a string.
#[derive(Debug, Clone, Copy, PartialEq, Eq, Structural)]
pub struct Echo;

impl CommandImpl for Echo {
    const NAME: &'static str = "echo";

    /// There must be a first argument.
    open spec fn accepts(&self, args: Seq<AtomView>) -> bool {
        args.len() > 0
    }

    open spec fn line(&self, args: Seq<AtomView>) -> Option<Seq<char>> {
        match args[0].data {
            AtomDataView::String(text) => Some(text),
            _ => None,
        }
    }

    fn call_impl(&self, args: &[Atom]) -> (line: Option<String>) {
        match &args[0].data {
            AtomData::String(string) => Some(string.clone()),
            _ => None,
        }
    }
}

/// What a name can be bound to.
#[derive(Debug, Clone)]
pub enum Value {
    Number(u64),
    String(String),
    Command(Echo),
}

/// A value as contracts see it.
pub enum ValueView {
    Number(u64),
    String(Seq<char>),
    Command(Echo),
}

impl View for Value {
    type V = ValueView;

    open spec fn view(&self) -> ValueView {
        match self {
            Value::Number(value) => ValueView::Number(*value),
            Value::String(text) => ValueView::String(text@),
            Value::Command(command) => ValueView::Command(*command),
        }
    }
}

/// The bindings of the first `n` of `entries`, a later one replacing an
/// earlier one of the same name.
pub open spec fn bindings(entries: Seq<(String, Value)>, n: int) -> Map<Seq<char>, ValueView>
    decreases n,
{
    if n <= 0 {
        Map::empty()
    } else {
        bindings(entries, n - 1).insert(entries[n - 1].0@, entries[n - 1].1@)
    }
}

/// What the names are bound to before a script binds any: each built-in to
/// its name.
pub open spec fn builtins() -> Map<Seq<char>, ValueView> {
    Map::<Seq<char>, ValueView>::empty().insert(Echo.called(), ValueView::Command(Echo))
}

/// Whether no name occurs twice among `entries`.
pub open spec fn distinct_names(entries: Seq<(String, Value)>) -> bool {
    forall|i: int, j: int|
        0 <= i < j < entries.len() ==> (#[trigger] entries[i]).0@ != (#[trigger] entries[j]).0@
}

/// The names that commands can call, each with what it is bound to. The
/// bindings are kept as pairs of a name and a value, and no name is kept
/// twice.
pub struct Env {
    env: Vec<(String, Value)>,
}

impl View for Env {
    type V = Map<Seq<char>, ValueView>;

    closed spec fn view(&self) -> Map<Seq<char>, ValueView> {
        bindings(self.env@, self.env@.len() as int)
    }
}

impl Env {
    /// No name is bound twice.
    pub closed spec fn wf(&self) -> bool {
        distinct_names(self.env@)
    }

    /// Index of the pair that binds `name`, if there is one.
    fn position(&self, name: &String) -> (at: Option<usize>)
        ensures
            match at {
                Some(i) => i < self.env@.len() && self.env@[i as int].0@ == name@,
                None => forall|i: int| 0 <= i < self.env@.len() ==> self.env@[i].0@ != name@,
            },
    {
        let mut i: usize = 0;
        while i < self.env.len()
            invariant
                i <= self.env@.len(),
                forall|k: int| 0 <= k < i ==> self.env@[k].0@ != name@,
            decreases self.env.len() - i,
        {
            if self.env[i].0 == *name {
                return Some(i);
            }
            i = i + 1;
        }
        None
    }

    /// Binds the name of `command` to it, in place of what the name was
    /// bound to before.
    pub fn add_command(&mut self, command: Echo)
        requires
            old(self).wf(),
        ensures
            final(self).wf(),
            final(self)@ == old(self)@.insert(command.called(), ValueView::Command(command)),
    {
        let ghost before = self.env@;
        let name = command.name().to_owned();
        match self.position(&name) {
            Some(i) => {
                self.env[i].1 = Value::Command(command);
                proof {
                    assert(self.env@ =~= before.update(
                        i as int,
                        (before[i as int].0, Value::Command(command)),
                    ));
                    lemma_bindings_update(
                        before,
                        i as int,
                        Value::Command(command),
                        before.len() as int,
                    );
                }
            },
            None => {
                self.env.push((name, Value::Command(command)));
                proof {
                    lemma_bindings_prefix(before, self.env@, before.len() as int);
                }
            },
        }
    }

    /// The environment that holds the built-ins and nothing else.
    pub fn new() -> (env: Env)
        ensures
            env.wf(),
            env@ == builtins(),
    {
        let mut env = Env { env: Vec::new() };
        env.add_command(Echo);
        env
    }

    /// What `name` is bound to, if it is bound.
    pub fn get(&self, name: &str) -> (value: Option<&Value>)
        requires
            self.wf(),
        ensures
            match value {
                Some(found) => self@.contains_key(name@) && self@[name@] == found@,
                None => !self@.contains_key(name@),
            },
    {
        let key = name.to_owned();
        match self.position(&key) {
            Some(i) => {
                proof {
                    lemma_bindings_at(self.env@, self.env@.len() as int, i as int);
                }
                Some(&self.env[i].1)
            },
            None => {
                proof {
                    lemma_bindings_absent(self.env@, self.env@.len() as int, name@);
                }
                None
            },
        }
    }
}

proof fn lemma_bindings_prefix(short: Seq<(String, Value)>, long: Seq<(String, Value)>, n: int)
    requires
        0 <= n <= short.len() <= long.len(),
        forall|i: int| 0 <= i < short.len() ==> short[i] == long[i],
    ensures
        bindings(short, n) == bindings(long, n),
    decreases n,
{
    if n > 0 {
        lemma_bindings_prefix(short, long, n - 1);
    }
}

/// A name that none of the first `n` entries binds is not bound.
proof fn lemma_bindings_absent(entries: Seq<(String, Value)>, n: int, name: Seq<char>)
    requires
        0 <= n <= entries.len(),
        forall|i: int| 0 <= i < n ==> entries[i].0@ != name,
    ensures
        !bindings(entries, n).contains_key(name),
    decreases n,
{
    if n > 0 {
        lemma_bindings_absent(entries, n - 1, name);
    }
}

/// Where no name occurs twice, each entry's name is bound to its value.
proof fn lemma_bindings_at(entries: Seq<(String, Value)>, n: int, i: int)
    requires
        distinct_names(entries),
        0 <= i < n <= entries.len(),
    ensures
        bindings(entries, n).contains_key(entries[i].0@),
        bindings(entries, n)[entries[i].0@] == entries[i].1@,
    decreases n,
{
    if i < n - 1 {
        lemma_bindings_at(entries, n - 1, i);
        assert(entries[i].0@ != entries[n - 1].0@);
    }
}

/// Where no name occurs twice, a new value for an entry is a new binding
/// of its name.
proof fn lemma_bindings_update(entries: Seq<(String, Value)>, i: int, value: Value, n: int)
    requires
        distinct_names(entries),
        0 <= i < entries.len(),
        0 <= n <= entries.len(),
    ensures
        bindings(entries.update(i, (entries[i].0, value)), n) == if i < n {
            bindings(entries, n).insert(entries[i].0@, value@)
        } else {
            bindings(entries, n)
        },
    decreases n,
{
    let after = entries.update(i, (entries[i].0, value));
    if n > 0 {
        lemma_bindings_update(entries, i, value, n - 1);
        if i == n - 1 {
            assert(bindings(after, n) =~= bindings(entries, n).insert(entries[i].0@, value@));
        } else if i < n - 1 {
            assert(entries[i].0@ != entries[n - 1].0@);
            assert(bindings(after, n) =~= bindings(entries, n).insert(entries[i].0@, value@));
        }
    }
}

/// What running one command does.
#[derive(Debug, PartialEq, Eq)]
pub enum Effect {
    /// The command does nothing that shows.
    Nothing,
    /// The command prints this line.
    Print(String),
}

/// An effect as contracts see it.
pub enum EffectView {
    Nothing,
    Print(Seq<char>),
}

impl View for Effect {
    type V = EffectView;

    open spec fn view(&self) -> EffectView {
        match self {
            Effect::Nothing => EffectView::Nothing,
            Effect::Print(line) => EffectView::Print(line@),
        }
    }
}

/// What running `command` in `env` does, or `None` if it cannot be run. A
/// command that does not begin with an identifier is passed over. One that
/// does must name a built-in that runs with the atoms after the name as its
/// arguments.
pub open spec fn effect_of(env: Map<Seq<char>, ValueView>, command: CommandView) -> Option<
    EffectView,
> {
    if command.data.len() == 0 {
        Some(EffectView::Nothing)
    } else {
        match command.data[0].data {
            AtomDataView::Identifier(name) => if env.contains_key(name) {
                match env[name] {
                    ValueView::Command(builtin) => if builtin.runs(command.data.skip(1)) {
                        match builtin.prints(command.data.skip(1)) {
                            Some(text) => Some(EffectView::Print(text)),
                            None => Some(EffectView::Nothing),
                        }
                    } else {
                        None
                    },
                    _ => None,
                }
            } else {
                None
            },
            _ => Some(EffectView::Nothing),
        }
    }
}

/// What running `command` in `env` does, or `None` if it cannot be run.
pub fn run_command(env: &Env, command: &Command) -> (effect: Option<Effect>)
    requires
        env.wf(),
    ensures
        match effect_of(env@, command@) {
            Some(expected) => effect is Some && effect->0@ == expected,
            None => effect is None,
        },
{
    let data = command.data();
    if data.len() == 0 {
        return Some(Effect::Nothing);
    }
    assert(command@.data[0] == data@[0]@);
    match &data[0].data {
        AtomData::Identifier(ident) => match env.get(ident.as_str()) {
            Some(Value::Command(builtin)) => {
                if data.len() < 2 {
                    return None;
                }
                let args = slice_subrange(data.as_slice(), 1, data.len());
                assert(atoms_view(args@) =~= command@.data.skip(1));
                match builtin.call(args) {
                    Some(line) => Some(Effect::Print(line)),
                    None => Some(Effect::Nothing),
                }
            },
            _ => None,
        },
        _ => Some(Effect::Nothing),
    }
}

/// The lines that running the first `n` of `commands` prints, in order, or
/// `None` if one of them cannot be run.
pub open spec fn output_of(
    env: Map<Seq<char>, ValueView>,
    commands: Seq<CommandView>,
    n: int,
) -> Option<Seq<Seq<char>>>
    decreases n,
{
    if n <= 0 {
        Some(Seq::empty())
    } else {
        match (output_of(env, commands, n - 1), effect_of(env, commands[n - 1])) {
            (Some(lines), Some(EffectView::Print(line))) => Some(lines.push(line)),
            (Some(lines), Some(EffectView::Nothing)) => Some(lines),
            _ => None,
        }
    }
}

/// The lines that evaluating `source` prints, or `None` if it cannot be
/// evaluated: if it does not parse, or one of its commands cannot be run.
pub open spec fn eval_of(source: Seq<char>) -> Option<Seq<Seq<char>>> {
    match parse_of(source) {
        Some(Ok(atom)) => match atom.data {
            AtomDataView::Batch(body) => output_of(builtins(), body, body.len() as int),
            _ => None,
        },
        _ => None,
    }
}

/// The lines as sequences of characters.
pub open spec fn lines_view(lines: Seq<String>) -> Seq<Seq<char>> {
    Seq::new(lines.len(), |i: int| lines[i]@)
}

proof fn lemma_output_stops(
    env: Map<Seq<char>, ValueView>,
    commands: Seq<CommandView>,
    n: int,
    m: int,
)
    requires
        0 <= n <= m,
        output_of(env, commands, n) is None,
    ensures
        output_of(env, commands, m) is None,
    decreases m - n,
{
    if n < m {
        lemma_output_stops(env, commands, n, m - 1);
    }
}

/// The lines that evaluating `source` prints, or `None` if it cannot be
/// evaluated.
pub fn try_eval(source: &str) -> (output: Option<Vec<String>>)
    requires
        byte_len(source@) < usize::MAX,
    ensures
        match eval_of(source@) {
            Some(lines) => output is Some && lines_view(output->0@) == lines,
            None => output is None,
        },
{
    let ast = match try_parse(source) {
        Some(Ok(ast)) => ast,
        _ => {
            return None;
        },
    };
    let env = Env::new();
    match ast.data() {
        AtomData::Batch(body) => {
            let ghost commands = ast@.data->Batch_0;
            let mut lines: Vec<String> = Vec::new();
            let mut i: usize = 0;
            assert(lines_view(lines@) =~= Seq::<Seq<char>>::empty());
            while i < body.len()
                invariant
                    i <= body.len(),
                    commands.len() == body@.len(),
                    forall|k: int| 0 <= k < body@.len() ==> commands[k] == (#[trigger] body@[k])@,
                    env.wf(),
                    env@ == builtins(),
                    output_of(env@, commands, i as int) == Some(lines_view(lines@)),
                    eval_of(source@) == output_of(env@, commands, commands.len() as int),
                decreases body.len() - i,
            {
                let ghost before = lines_view(lines@);
                assert(commands[i as int] == body@[i as int]@);
                match run_command(&env, &body[i]) {
                    Some(Effect::Print(line)) => {
                        lines.push(line);
                        assert(lines_view(lines@) =~= before.push(line@));
                    },
                    Some(Effect::Nothing) => {},
                    None => {
                        proof {
                            lemma_output_stops(env@, commands, i as int + 1, commands.len() as int);
                        }
                        return None;
                    },
                }
                i = i + 1;
            }
            Some(lines)
        },
        _ => None,
    }
}

/// The lines that evaluating `source` prints. The source must parse, and
/// each of its commands must be one that can be run.
pub fn eval(source: &str) -> (output: Vec<String>)
    requires
        byte_len(source@) < usize::MAX,
        eval_of(source@) is Some,
    ensures
        lines_view(output@) == eval_of(source@)->0,
{
    match try_eval(source) {
        Some(output) => output,
        None => unreached(),
    }
}

} // verus!
