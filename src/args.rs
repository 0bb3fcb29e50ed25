//! Typed command-line arguments: declared commands and flags, a single
//! left-to-right pass that classifies each token, and the queries that read
//! flag values and commands off the classified sequence.
use crate::args_lemmas::lemma_parse_fails_from_prefix;
use crate::decimal::{parse_signed, parse_unsigned, signed_of, unsigned_of};
use vstd::prelude::*;

verus! {

/// The kind of value that a flag expects.
#[derive(Debug, Clone, Copy, PartialEq, Eq, Structural, Hash)]
pub enum FlagKind {
    Bool,
    Uint,
    Int,
    String,
}

/// A flag as the contracts see it: its kind and its name.
pub struct FlagView {
    pub kind: FlagKind,
    pub name: Seq<char>,
}

/// A value as the contracts see it.
pub enum ValueView {
    Bool(bool),
    Uint(u64),
    Int(i64),
    String(Seq<char>),
}

/// A classified token as the contracts see it.
pub enum ItemView {
    Command(Seq<char>),
    Flag(FlagView),
    Value(ValueView),
}

/// A parse failure as the contracts see it.
pub enum ErrorView {
    MalformedArgument(Seq<char>),
    BadFlag,
}

/// A subcommand of a program, matched verbatim against a token.
#[derive(Debug, Clone, PartialEq, Eq)]
pub struct Command(pub String);

impl View for Command {
    type V = Seq<char>;

    open spec fn view(&self) -> Seq<char> {
        self.0@
    }
}

/// A command line flag. A flag whose name is one character long may be
/// written with one dash (`-f`) or two (`--f`); a longer name takes two
/// (`--flag`).
#[derive(Debug, Clone, PartialEq, Eq, Hash)]
pub enum Flag {
    /// Takes `true` or `false` after it; its presence alone means `true`,
    /// its absence gives no value.
    Bool(String),
    Uint(String),
    Int(String),
    String(String),
}

impl View for Flag {
    type V = FlagView;

    open spec fn view(&self) -> FlagView {
        match self {
            Flag::Bool(s) => FlagView { kind: FlagKind::Bool, name: s@ },
            Flag::Uint(s) => FlagView { kind: FlagKind::Uint, name: s@ },
            Flag::Int(s) => FlagView { kind: FlagKind::Int, name: s@ },
            Flag::String(s) => FlagView { kind: FlagKind::String, name: s@ },
        }
    }
}

/// Any value that a token can stand for.
#[derive(Debug, Clone, PartialEq, Eq)]
pub enum Value {
    Bool(bool),
    Uint(u64),
    Int(i64),
    String(String),
}

impl View for Value {
    type V = ValueView;

    open spec fn view(&self) -> ValueView {
        match self {
            Value::Bool(b) => ValueView::Bool(*b),
            Value::Uint(n) => ValueView::Uint(*n),
            Value::Int(n) => ValueView::Int(*n),
            Value::String(s) => ValueView::String(s@),
        }
    }
}

/// One classified token.
#[derive(Debug, Clone, PartialEq)]
pub enum ArgsItem {
    /// A token equal to a declared command.
    Command(Command),
    /// A token that names a declared flag.
    Flag(Flag),
    /// A token that follows a flag expecting a value, or a bare token that
    /// is no command.
    Value(Value),
}

impl View for ArgsItem {
    type V = ItemView;

    open spec fn view(&self) -> ItemView {
        match self {
            ArgsItem::Command(c) => ItemView::Command(c@),
            ArgsItem::Flag(f) => ItemView::Flag(f@),
            ArgsItem::Value(v) => ItemView::Value(v@),
        }
    }
}

/// Why a parse failed.
#[derive(Debug, Clone, PartialEq, Eq)]
pub enum Error {
    /// A token has no flag's shape though it starts with a dash, or does not
    /// read as the value that the flag before it expects. Holds the token.
    MalformedArgument(String),
    /// A token has a flag's shape but no declared flag has its name.
    BadFlag,
}

impl View for Error {
    type V = ErrorView;

    open spec fn view(&self) -> ErrorView {
        match self {
            Error::MalformedArgument(s) => ErrorView::MalformedArgument(s@),
            Error::BadFlag => ErrorView::BadFlag,
        }
    }
}

/// The value that a flag of kind `kind` reads from the token `t`, if any.
pub open spec fn coerce(kind: FlagKind, t: Seq<char>) -> Option<ValueView> {
    match kind {
        FlagKind::Bool => {
            if t == seq!['t', 'r', 'u', 'e'] {
                Some(ValueView::Bool(true))
            } else if t == seq!['f', 'a', 'l', 's', 'e'] {
                Some(ValueView::Bool(false))
            } else {
                None
            }
        },
        FlagKind::Uint => match unsigned_of(t) {
            Some(n) => Some(ValueView::Uint(n)),
            None => None,
        },
        FlagKind::Int => match signed_of(t) {
            Some(n) => Some(ValueView::Int(n)),
            None => None,
        },
        FlagKind::String => Some(ValueView::String(t)),
    }
}

/// Reading `t` as a value for a flag of kind `kind`, as a parse result.
pub open spec fn coerce_item(kind: FlagKind, t: Seq<char>) -> Result<ItemView, ErrorView> {
    match coerce(kind, t) {
        Some(v) => Ok(ItemView::Value(v)),
        None => Err(ErrorView::MalformedArgument(t)),
    }
}

/// The flag name that a dash-prefixed token spells: what follows two
/// leading dashes, or the one character after a single dash. `None` for any
/// other shape.
pub open spec fn flag_name_of(t: Seq<char>) -> Option<Seq<char>> {
    if t.len() >= 2 && t[0] == '-' && t[1] == '-' {
        Some(t.subrange(2, t.len() as int))
    } else if t.len() == 2 && t[0] == '-' {
        Some(t.subrange(1, 2))
    } else {
        None
    }
}

/// The first of `flags` named `name`.
pub open spec fn find_flag(flags: Seq<FlagView>, name: Seq<char>) -> Option<FlagView>
    decreases flags.len(),
{
    if flags.len() == 0 {
        None
    } else if flags[0].name == name {
        Some(flags[0])
    } else {
        find_flag(flags.drop_first(), name)
    }
}

/// What a dash-prefixed token `t` stands for, given the declared flags.
pub open spec fn resolve_flag(t: Seq<char>, flags: Seq<FlagView>) -> Result<ItemView, ErrorView> {
    match flag_name_of(t) {
        None => Err(ErrorView::MalformedArgument(t)),
        Some(name) => match find_flag(flags, name) {
            Some(f) => Ok(ItemView::Flag(f)),
            None => Err(ErrorView::BadFlag),
        },
    }
}

/// True when `t` starts with a dash.
pub open spec fn dashed(t: Seq<char>) -> bool {
    t.len() > 0 && t[0] == '-'
}

/// The kind of the flag that ends `items`, if the last item is a flag.
pub open spec fn flag_before(items: Seq<ItemView>) -> Option<FlagKind> {
    if items.len() > 0 && items.last() is Flag {
        Some(items.last()->Flag_0.kind)
    } else {
        None
    }
}

/// How the token `t` is classified, given the kind of the flag just before
/// it (`None` where the item before is no flag, or there is none), the
/// declared command names and the declared flags.
///
/// A flag that expects a number or a string takes the next token as its
/// value whatever it looks like. Otherwise a declared command comes first,
/// then a dash-prefixed token is a flag; a bare token after a boolean flag is
/// read as a boolean, and any other bare token is a string value.
pub open spec fn classify(
    after: Option<FlagKind>,
    t: Seq<char>,
    commands: Seq<Seq<char>>,
    flags: Seq<FlagView>,
) -> Result<ItemView, ErrorView> {
    if after is Some && after->0 != FlagKind::Bool {
        coerce_item(after->0, t)
    } else if commands.contains(t) {
        Ok(ItemView::Command(t))
    } else if dashed(t) {
        resolve_flag(t, flags)
    } else if after is Some {
        coerce_item(FlagKind::Bool, t)
    } else {
        Ok(ItemView::Value(ValueView::String(t)))
    }
}

/// The classified sequence for `tokens`, or the first failure.
pub open spec fn parse_items(
    tokens: Seq<Seq<char>>,
    commands: Seq<Seq<char>>,
    flags: Seq<FlagView>,
) -> Result<Seq<ItemView>, ErrorView>
    decreases tokens.len(),
{
    if tokens.len() == 0 {
        Ok(Seq::empty())
    } else {
        match parse_items(tokens.drop_last(), commands, flags) {
            Err(e) => Err(e),
            Ok(items) => {
                match classify(flag_before(items), tokens.last(), commands, flags) {
                    Ok(item) => Ok(items.push(item)),
                    Err(e) => Err(e),
                }
            },
        }
    }
}

impl Flag {
    /// This flag's name, whatever its kind.
    pub fn name(&self) -> (r: &str)
        ensures
            r@ == self@.name,
    {
        match self {
            Flag::Bool(s) => s.as_str(),
            Flag::Uint(s) => s.as_str(),
            Flag::Int(s) => s.as_str(),
            Flag::String(s) => s.as_str(),
        }
    }

    fn name_string(&self) -> (r: &String)
        ensures
            r@ == self@.name,
    {
        match self {
            Flag::Bool(s) => s,
            Flag::Uint(s) => s,
            Flag::Int(s) => s,
            Flag::String(s) => s,
        }
    }

    /// The kind of value this flag expects.
    pub fn kind(&self) -> (r: FlagKind)
        ensures
            r == self@.kind,
    {
        match self {
            Flag::Bool(_) => FlagKind::Bool,
            Flag::Uint(_) => FlagKind::Uint,
            Flag::Int(_) => FlagKind::Int,
            Flag::String(_) => FlagKind::String,
        }
    }

    /// True when this flag's name is one character long.
    pub fn single_char(&self) -> (r: bool)
        ensures
            r == (self@.name.len() == 1),
    {
        self.name().unicode_len() == 1
    }

    /// A copy of this flag.
    pub fn copy(&self) -> (r: Flag)
        ensures
            r@ == self@,
    {
        match self {
            Flag::Bool(s) => Flag::Bool(s.clone()),
            Flag::Uint(s) => Flag::Uint(s.clone()),
            Flag::Int(s) => Flag::Int(s.clone()),
            Flag::String(s) => Flag::String(s.clone()),
        }
    }

    /// True when `self` and `other` are the same flag: same kind, same name.
    pub fn same_as(&self, other: &Flag) -> (r: bool)
        ensures
            r == (self@ == other@),
    {
        let k1 = self.kind();
        let k2 = other.kind();
        k1 == k2 && *self.name_string() == *other.name_string()
    }

    /// Reads `arg` as a value of the kind this flag expects: `true` or
    /// `false` for a boolean flag, a decimal number as the standard library
    /// reads it for `u64` or `i64`, any text for a string flag.
    pub fn parse_value(&self, arg: &str) -> (r: Result<Value, Error>)
        ensures
            match coerce(self@.kind, arg@) {
                Some(v) => r matches Ok(x) && x@ == v,
                None => r matches Err(e) && e@ == ErrorView::MalformedArgument(arg@),
            },
    {
        coerce_value(self.kind(), arg)
    }
}

/// Reads `arg` as a value of kind `kind`.
fn coerce_value(kind: FlagKind, arg: &str) -> (r: Result<Value, Error>)
    ensures
        match coerce(kind, arg@) {
            Some(v) => r matches Ok(x) && x@ == v,
            None => r matches Err(e) && e@ == ErrorView::MalformedArgument(arg@),
        },
{
    match kind {
        FlagKind::Bool => parse_bool(arg),
        FlagKind::Uint => match parse_unsigned(arg) {
            Some(n) => Ok(Value::Uint(n)),
            None => Err(Error::MalformedArgument(arg.to_owned())),
        },
        FlagKind::Int => match parse_signed(arg) {
            Some(n) => Ok(Value::Int(n)),
            None => Err(Error::MalformedArgument(arg.to_owned())),
        },
        FlagKind::String => Ok(Value::String(arg.to_owned())),
    }
}

/// Reads `arg` as `bool::from_str` does: `true` or `false`, nothing else.
fn parse_bool(arg: &str) -> (r: Result<Value, Error>)
    ensures
        match coerce(FlagKind::Bool, arg@) {
            Some(v) => r matches Ok(x) && x@ == v,
            None => r matches Err(e) && e@ == ErrorView::MalformedArgument(arg@),
        },
{
    let n = arg.unicode_len();
    if n == 4 && arg.get_char(0) == 't' && arg.get_char(1) == 'r' && arg.get_char(2) == 'u'
        && arg.get_char(3) == 'e' {
        assert(arg@ =~= seq!['t', 'r', 'u', 'e']);
        Ok(Value::Bool(true))
    } else if n == 5 && arg.get_char(0) == 'f' && arg.get_char(1) == 'a' && arg.get_char(2) == 'l'
        && arg.get_char(3) == 's' && arg.get_char(4) == 'e' {
        assert(arg@ =~= seq!['f', 'a', 'l', 's', 'e']);
        Ok(Value::Bool(false))
    } else {
        proof {
            if arg@ == seq!['t', 'r', 'u', 'e'] {
                assert(arg@[0] == 't' && arg@[1] == 'r' && arg@[2] == 'u' && arg@[3] == 'e');
            }
            if arg@ == seq!['f', 'a', 'l', 's', 'e'] {
                assert(arg@[0] == 'f' && arg@[1] == 'a' && arg@[2] == 'l' && arg@[3] == 's'
                    && arg@[4] == 'e');
            }
        }
        Err(Error::MalformedArgument(arg.to_owned()))
    }
}

impl Value {
    /// A copy of this value.
    pub fn copy(&self) -> (r: Value)
        ensures
            r@ == self@,
    {
        match self {
            Value::Bool(b) => Value::Bool(*b),
            Value::Uint(n) => Value::Uint(*n),
            Value::Int(n) => Value::Int(*n),
            Value::String(s) => Value::String(s.clone()),
        }
    }
}

proof fn lemma_find_flag_skip(flags: Seq<FlagView>, name: Seq<char>, j: int)
    requires
        0 <= j <= flags.len(),
        forall|k: int| 0 <= k < j ==> flags[k].name != name,
    ensures
        find_flag(flags, name) == find_flag(flags.subrange(j, flags.len() as int), name),
    decreases j,
{
    if j == 0 {
        assert(flags.subrange(0, flags.len() as int) =~= flags);
    } else {
        let rest = flags.drop_first();
        assert forall|k: int| 0 <= k < j - 1 implies rest[k].name != name by {
            assert(rest[k] == flags[k + 1]);
        }
        lemma_find_flag_skip(rest, name, j - 1);
        assert(rest.subrange(j - 1, rest.len() as int) =~= flags.subrange(j, flags.len() as int));
    }
}

/// Parses command line tokens against declared commands and flags.
#[derive(Debug)]
pub struct ArgsParser {
    args: Vec<String>,
    commands: Vec<Command>,
    flags: Vec<Flag>,
}

impl ArgsParser {
    /// The tokens to parse, in order.
    pub closed spec fn tokens(&self) -> Seq<Seq<char>> {
        self.args@.map_values(|s: String| s@)
    }

    /// The names of the declared commands, in the order of declaration.
    pub closed spec fn command_names(&self) -> Seq<Seq<char>> {
        self.commands@.map_values(|c: Command| c@)
    }

    /// The declared flags, in the order of declaration.
    pub closed spec fn declared_flags(&self) -> Seq<FlagView> {
        self.flags@.map_values(|f: Flag| f@)
    }

    /// A parser over `args`, with no command or flag declared yet.
    pub fn new(args: Vec<String>) -> (r: ArgsParser)
        ensures
            r.tokens() == args@.map_values(|s: String| s@),
            r.command_names() == Seq::<Seq<char>>::empty(),
            r.declared_flags() == Seq::<FlagView>::empty(),
    {
        let r = ArgsParser { args, commands: Vec::new(), flags: Vec::new() };
        assert(r.command_names() =~= Seq::<Seq<char>>::empty());
        assert(r.declared_flags() =~= Seq::<FlagView>::empty());
        r
    }

    /// Declares `flag`, after the flags declared so far.
    pub fn flag(self, flag: Flag) -> (r: ArgsParser)
        ensures
            r.tokens() == self.tokens(),
            r.command_names() == self.command_names(),
            r.declared_flags() == self.declared_flags().push(flag@),
    {
        let ghost before = self.flags@;
        let mut r = self;
        r.flags.push(flag);
        assert(r.flags@.map_values(|f: Flag| f@) =~= before.map_values(|f: Flag| f@).push(
            flag@,
        ));
        r
    }

    /// Declares `command`, after the commands declared so far.
    pub fn command(self, command: Command) -> (r: ArgsParser)
        ensures
            r.tokens() == self.tokens(),
            r.command_names() == self.command_names().push(command@),
            r.declared_flags() == self.declared_flags(),
    {
        let ghost before = self.commands@;
        let mut r = self;
        r.commands.push(command);
        assert(r.commands@.map_values(|c: Command| c@) =~= before.map_values(|c: Command| c@).push(
            command@,
        ));
        r
    }

    /// The index of a declared command named `arg`, if there is one.
    fn find_command(&self, arg: &String) -> (r: Option<usize>)
        ensures
            r is Some <==> self.command_names().contains(arg@),
            r matches Some(j) ==> j < self.commands@.len() && self.commands@[j as int]@ == arg@,
    {
        let mut j: usize = 0;
        while j < self.commands.len()
            invariant
                j <= self.commands@.len(),
                forall|k: int| 0 <= k < j ==> self.commands@[k]@ != arg@,
            decreases self.commands@.len() - j,
        {
            if self.commands[j].0 == *arg {
                assert(self.command_names()[j as int] == arg@);
                return Some(j);
            }
            j = j + 1;
        }
        proof {
            if self.command_names().contains(arg@) {
                let k = choose|k: int|
                    0 <= k < self.command_names().len() && self.command_names()[k] == arg@;
                assert(self.commands@[k]@ == arg@);
            }
        }
        None
    }

    /// The first declared flag named `name`, if there is one.
    fn find_flag(&self, name: &String) -> (r: Option<&Flag>)
        ensures
            find_flag(self.declared_flags(), name@) == (match r {
                Some(f) => Some(f@),
                None => None::<FlagView>,
            }),
    {
        let ghost flags = self.declared_flags();
        let mut j: usize = 0;
        while j < self.flags.len()
            invariant
                flags == self.declared_flags(),
                j <= self.flags@.len(),
                forall|k: int| 0 <= k < j ==> flags[k].name != name@,
            decreases self.flags@.len() - j,
        {
            let f = &self.flags[j];
            if *f.name_string() == *name {
                proof {
                    lemma_find_flag_skip(flags, name@, j as int);
                    assert(flags.subrange(j as int, flags.len() as int)[0] == f@);
                }
                return Some(f);
            }
            j = j + 1;
        }
        proof {
            lemma_find_flag_skip(flags, name@, j as int);
        }
        None
    }

    /// Classifies a dash-prefixed token `arg` as a declared flag.
    fn resolve_flag(&self, arg: &String) -> (r: Result<ArgsItem, Error>)
        ensures
            match resolve_flag(arg@, self.declared_flags()) {
                Ok(i) => r matches Ok(x) && x@ == i,
                Err(e) => r matches Err(x) && x@ == e,
            },
    {
        let s = arg.as_str();
        let n = s.unicode_len();
        let name: &str = if n >= 2 && s.get_char(0) == '-' && s.get_char(1) == '-' {
            s.substring_char(2, n)
        } else if n == 2 && s.get_char(0) == '-' {
            s.substring_char(1, 2)
        } else {
            return Err(Error::MalformedArgument(arg.clone()));
        };
        let name = name.to_owned();
        match self.find_flag(&name) {
            Some(f) => Ok(ArgsItem::Flag(f.copy())),
            None => Err(Error::BadFlag),
        }
    }

    /// Classifies the token `arg`, given the kind of the flag just before it.
    fn classify(&self, after: Option<FlagKind>, arg: &String) -> (r: Result<ArgsItem, Error>)
        ensures
            match classify(after, arg@, self.command_names(), self.declared_flags()) {
                Ok(i) => r matches Ok(x) && x@ == i,
                Err(e) => r matches Err(x) && x@ == e,
            },
    {
        if let Some(kind) = after {
            if kind != FlagKind::Bool {
                return match coerce_value(kind, arg.as_str()) {
                    Ok(v) => Ok(ArgsItem::Value(v)),
                    Err(e) => Err(e),
                };
            }
        }
        if let Some(j) = self.find_command(arg) {
            return Ok(ArgsItem::Command(Command(self.commands[j].0.clone())));
        }
        let s = arg.as_str();
        if s.unicode_len() > 0 && s.get_char(0) == '-' {
            return self.resolve_flag(arg);
        }
        if after.is_some() {
            match coerce_value(FlagKind::Bool, s) {
                Ok(v) => Ok(ArgsItem::Value(v)),
                Err(e) => Err(e),
            }
        } else {
            Ok(ArgsItem::Value(Value::String(arg.clone())))
        }
    }

    /// Classifies every token in order. Fails on the first token that cannot
    /// be classified, with no partial result.
    pub fn parse(self) -> (r: Result<ParsedArgs, Error>)
        ensures
            match parse_items(self.tokens(), self.command_names(), self.declared_flags()) {
                Ok(items) => r matches Ok(p) && p.declared_flags() == self.declared_flags()
                    && p.items() == items,
                Err(e) => r matches Err(x) && x@ == e,
            },
    {
        let ghost tokens = self.tokens();
        let ghost commands = self.command_names();
        let ghost flags = self.declared_flags();
        let mut items: Vec<ArgsItem> = Vec::new();
        let mut after: Option<FlagKind> = None;
        let mut i: usize = 0;
        assert(tokens.take(0) =~= Seq::<Seq<char>>::empty());
        assert(items@.map_values(|x: ArgsItem| x@) =~= Seq::<ItemView>::empty());
        while i < self.args.len()
            invariant
                tokens == self.tokens(),
                commands == self.command_names(),
                flags == self.declared_flags(),
                i <= self.args@.len(),
                parse_items(tokens.take(i as int), commands, flags) == Ok::<
                    Seq<ItemView>,
                    ErrorView,
                >(items@.map_values(|x: ArgsItem| x@)),
                after == flag_before(items@.map_values(|x: ArgsItem| x@)),
            decreases self.args@.len() - i,
        {
            let ghost before = items@.map_values(|x: ArgsItem| x@);
            proof {
                assert(tokens.take(i + 1).drop_last() =~= tokens.take(i as int));
                assert(tokens.take(i + 1).last() == self.args@[i as int]@);
            }
            let item = match self.classify(after, &self.args[i]) {
                Ok(item) => item,
                Err(e) => {
                    proof {
                        lemma_parse_fails_from_prefix(tokens, commands, flags, (i + 1) as int);
                    }
                    return Err(e);
                },
            };
            after = match &item {
                ArgsItem::Flag(f) => Some(f.kind()),
                _ => None,
            };
            items.push(item);
            assert(items@.map_values(|x: ArgsItem| x@) =~= before.push(item@));
            i = i + 1;
        }
        assert(tokens.take(i as int) =~= tokens);
        Ok(ParsedArgs { flags: self.flags, items })
    }
}

/// The outcome of a successful parse: the declared flags and the classified
/// tokens, one item per token, in input order.
pub struct ParsedArgs {
    flags: Vec<Flag>,
    items: Vec<ArgsItem>,
}

impl ParsedArgs {
    /// The declared flags, in the order of declaration.
    pub closed spec fn declared_flags(&self) -> Seq<FlagView> {
        self.flags@.map_values(|f: Flag| f@)
    }

    /// The classified tokens, in input order.
    pub closed spec fn items(&self) -> Seq<ItemView> {
        self.items@.map_values(|x: ArgsItem| x@)
    }
}

/// The value recorded for the flag at index `i` of `items`: the value item
/// right after it if there is one, else `true` for a boolean flag and
/// nothing for any other.
pub open spec fn value_after(items: Seq<ItemView>, i: int) -> Option<ValueView> {
    if i + 1 < items.len() && items[i + 1] is Value {
        Some(items[i + 1]->Value_0)
    } else if items[i] is Flag && items[i]->Flag_0.kind == FlagKind::Bool {
        Some(ValueView::Bool(true))
    } else {
        None
    }
}

/// The value recorded for `f` by its last occurrence among the first `n`
/// items; nothing where it does not occur there.
pub open spec fn last_value_upto(items: Seq<ItemView>, n: int, f: FlagView) -> Option<ValueView>
    decreases n,
{
    if n <= 0 {
        None
    } else if items[n - 1] == ItemView::Flag(f) {
        value_after(items, n - 1)
    } else {
        last_value_upto(items, n - 1, f)
    }
}

/// The value that `items` give the flag `f`: the one recorded by its last
/// occurrence, nothing where it does not occur.
pub open spec fn flag_value(items: Seq<ItemView>, f: FlagView) -> Option<ValueView> {
    last_value_upto(items, items.len() as int, f)
}

/// The command names among `items`, in order, repeats kept.
pub open spec fn commands_of(items: Seq<ItemView>) -> Seq<Seq<char>>
    decreases items.len(),
{
    if items.len() == 0 {
        Seq::empty()
    } else {
        let rest = commands_of(items.drop_last());
        match items.last() {
            ItemView::Command(c) => rest.push(c),
            _ => rest,
        }
    }
}

/// The view of an optional value.
pub open spec fn opt_view(v: Option<Value>) -> Option<ValueView> {
    match v {
        Some(x) => Some(x@),
        None => None,
    }
}

/// The value given to each declared flag, keyed by flag: kind and name.
pub struct FlagValues {
    entries: Vec<(Flag, Option<Value>)>,
    model: Ghost<Map<FlagView, Option<ValueView>>>,
}

impl FlagValues {
    #[verifier::type_invariant]
    spec fn entries_match_model(self) -> bool {
        &&& forall|i: int, j: int|
            0 <= i < j < self.entries@.len() ==> self.entries@[i].0@ != self.entries@[j].0@
        &&& forall|k: FlagView|
            self.model@.dom().contains(k) <==> exists|i: int|
                0 <= i < self.entries@.len() && self.entries@[i].0@ == k
        &&& forall|i: int|
            0 <= i < self.entries@.len() ==> self.model@[self.entries@[i].0@] == opt_view(
                self.entries@[i].1,
            )
    }

    /// The value given to `flag`: `Some` with the flag's value, or with
    /// `None` where it has none, when `flag` was declared; `None` otherwise.
    pub fn get(&self, flag: &Flag) -> (r: Option<&Option<Value>>)
        ensures
            r is Some <==> self@.dom().contains(flag@),
            r matches Some(v) ==> opt_view(*v) == self@[flag@],
    {
        proof {
            use_type_invariant(self);
        }
        let mut i: usize = 0;
        while i < self.entries.len()
            invariant
                i <= self.entries@.len(),
                forall|k: int| 0 <= k < i ==> self.entries@[k].0@ != flag@,
            decreases self.entries@.len() - i,
        {
            if self.entries[i].0.same_as(flag) {
                proof {
                    use_type_invariant(self);
                }
                return Some(&self.entries[i].1);
            }
            i = i + 1;
        }
        None
    }
}

impl View for FlagValues {
    type V = Map<FlagView, Option<ValueView>>;

    closed spec fn view(&self) -> Map<FlagView, Option<ValueView>> {
        self.model@
    }
}

proof fn lemma_last_value_other(items: Seq<ItemView>, n: int, f: FlagView)
    requires
        0 <= n < items.len(),
        items[n] != ItemView::Flag(f),
    ensures
        last_value_upto(items, n + 1, f) == last_value_upto(items, n, f),
{
}

/// The index of the entry keyed `flag@` among `entries`, if any.
fn entry_index(entries: &Vec<(Flag, Option<Value>)>, flag: &Flag) -> (r: Option<usize>)
    ensures
        r matches Some(i) ==> i < entries@.len() && entries@[i as int].0@ == flag@,
        r is None ==> forall|k: int| 0 <= k < entries@.len() ==> entries@[k].0@ != flag@,
{
    let mut i: usize = 0;
    while i < entries.len()
        invariant
            i <= entries@.len(),
            forall|k: int| 0 <= k < i ==> entries@[k].0@ != flag@,
        decreases entries@.len() - i,
    {
        if entries[i].0.same_as(flag) {
            return Some(i);
        }
        i = i + 1;
    }
    None
}

impl ParsedArgs {
    /// The value of every declared flag. A flag followed by a value item
    /// takes that value; one followed by anything else, or by nothing, takes
    /// `true` if it is a boolean flag and no value otherwise; a later
    /// occurrence of a flag replaces what an earlier one gave; a declared
    /// flag that does not occur has no value.
    pub fn flags(&self) -> (r: FlagValues)
        ensures
            forall|k: FlagView| r@.dom().contains(k) <==> self.declared_flags().contains(k),
            forall|k: FlagView| #[trigger]
                r@.dom().contains(k) ==> r@[k] == flag_value(self.items(), k),
    {
        let ghost declared = self.declared_flags();
        let ghost items = self.items();
        let mut entries: Vec<(Flag, Option<Value>)> = Vec::new();
        let ghost mut model: Map<FlagView, Option<ValueView>> = Map::empty();
        let mut j: usize = 0;
        while j < self.flags.len()
            invariant
                declared == self.declared_flags(),
                j <= self.flags@.len(),
                forall|a: int, b: int|
                    0 <= a < b < entries@.len() ==> entries@[a].0@ != entries@[b].0@,
                forall|k: FlagView|
                    model.dom().contains(k) <==> exists|a: int|
                        0 <= a < entries@.len() && entries@[a].0@ == k,
                forall|a: int|
                    0 <= a < entries@.len() ==> model[entries@[a].0@] == opt_view(entries@[a].1),
                forall|k: FlagView|
                    model.dom().contains(k) <==> exists|m: int| 0 <= m < j && declared[m] == k,
                forall|k: FlagView| #[trigger] model.dom().contains(k) ==> model[k] is None,
            decreases self.flags@.len() - j,
        {
            let f = &self.flags[j];
            assert(declared[j as int] == f@);
            if entry_index(&entries, f).is_none() {
                let ghost old_entries = entries@;
                entries.push((f.copy(), None));
                proof {
                    model = model.insert(f@, None);
                    assert forall|a: int| 0 <= a < old_entries.len() implies entries@[a]
                        == old_entries[a] by {}
                    assert forall|k: FlagView| model.dom().contains(k) implies exists|a: int|
                        0 <= a < entries@.len() && entries@[a].0@ == k by {
                        if k != f@ {
                            let a = choose|a: int|
                                0 <= a < old_entries.len() && old_entries[a].0@ == k;
                            assert(entries@[a].0@ == k);
                        } else {
                            assert(entries@[old_entries.len() as int].0@ == k);
                        }
                    }
                }
            }
            j = j + 1;
        }
        let mut i: usize = 0;
        assert forall|k: FlagView| #[trigger] model.dom().contains(k) implies model[k]
            == last_value_upto(items, 0, k) by {}
        while i < self.items.len()
            invariant
                declared == self.declared_flags(),
                items == self.items(),
                i <= self.items@.len(),
                forall|a: int, b: int|
                    0 <= a < b < entries@.len() ==> entries@[a].0@ != entries@[b].0@,
                forall|k: FlagView|
                    model.dom().contains(k) <==> exists|a: int|
                        0 <= a < entries@.len() && entries@[a].0@ == k,
                forall|a: int|
                    0 <= a < entries@.len() ==> model[entries@[a].0@] == opt_view(entries@[a].1),
                forall|k: FlagView| model.dom().contains(k) <==> declared.contains(k),
                forall|k: FlagView| #[trigger]
                    model.dom().contains(k) ==> model[k] == last_value_upto(items, i as int, k),
            decreases self.items@.len() - i,
        {
            if let ArgsItem::Flag(f) = &self.items[i] {
                assert(items[i as int] == ItemView::Flag(f@));
                let value: Option<Value> = if i + 1 < self.items.len() {
                    match &self.items[i + 1] {
                        ArgsItem::Value(v) => Some(v.copy()),
                        _ => match f {
                            Flag::Bool(_) => Some(Value::Bool(true)),
                            _ => None,
                        },
                    }
                } else {
                    match f {
                        Flag::Bool(_) => Some(Value::Bool(true)),
                        _ => None,
                    }
                };
                assert(opt_view(value) == value_after(items, i as int));
                if let Some(e) = entry_index(&entries, f) {
                    let ghost old_entries = entries@;
                    let ghost old_model = model;
                    entries.set(e, (f.copy(), value));
                    proof {
                        model = model.insert(f@, opt_view(value));
                        assert forall|k: FlagView| #[trigger]
                            model.dom().contains(k) implies model[k] == last_value_upto(
                            items,
                            i + 1,
                            k,
                        ) by {
                            if k != f@ {
                                lemma_last_value_other(items, i as int, k);
                            }
                        }
                        assert forall|k: FlagView| model.dom().contains(k) implies exists|a: int|
                            0 <= a < entries@.len() && entries@[a].0@ == k by {
                            let a = choose|a: int|
                                0 <= a < old_entries.len() && old_entries[a].0@ == k;
                            assert(entries@[a].0@ == k);
                        }
                        assert forall|a: int|
                            0 <= a < entries@.len() implies model[entries@[a].0@] == opt_view(
                            entries@[a].1,
                        ) by {
                            if a != e {
                                assert(entries@[a] == old_entries[a]);
                            }
                        }
                    }
                } else {
                    assert forall|k: FlagView| #[trigger]
                        model.dom().contains(k) implies model[k] == last_value_upto(
                        items,
                        i + 1,
                        k,
                    ) by {
                        let a = choose|a: int|
                            0 <= a < entries@.len() && entries@[a].0@ == k;
                        lemma_last_value_other(items, i as int, k);
                    }
                }
            } else {
                assert forall|k: FlagView| #[trigger]
                    model.dom().contains(k) implies model[k] == last_value_upto(
                    items,
                    i + 1,
                    k,
                ) by {
                    lemma_last_value_other(items, i as int, k);
                }
            }
            i = i + 1;
        }
        FlagValues { entries, model: Ghost(model) }
    }

    /// The commands among the classified tokens, in input order, repeats
    /// kept.
    pub fn commands(&self) -> (r: Vec<Command>)
        ensures
            r@.map_values(|c: Command| c@) == commands_of(self.items()),
    {
        let ghost items = self.items();
        let mut r: Vec<Command> = Vec::new();
        let mut i: usize = 0;
        assert(items.take(0) =~= Seq::<ItemView>::empty());
        assert(r@.map_values(|c: Command| c@) =~= Seq::<Seq<char>>::empty());
        while i < self.items.len()
            invariant
                items == self.items(),
                i <= self.items@.len(),
                r@.map_values(|c: Command| c@) == commands_of(items.take(i as int)),
            decreases self.items@.len() - i,
        {
            let ghost before = r@.map_values(|c: Command| c@);
            assert(items.take(i + 1).drop_last() =~= items.take(i as int));
            if let ArgsItem::Command(c) = &self.items[i] {
                r.push(Command(c.0.clone()));
                assert(r@.map_values(|c: Command| c@) =~= before.push(c@));
            }
            i = i + 1;
        }
        assert(items.take(i as int) =~= items);
        r
    }
}

/// The index of the first occurrence of the command `c` at or after `i`.
pub open spec fn first_command_from(items: Seq<ItemView>, c: Seq<char>, i: int) -> Option<int>
    decreases items.len() - i,
{
    if i < 0 || i >= items.len() {
        None
    } else if items[i] == ItemView::Command(c) {
        Some(i)
    } else {
        first_command_from(items, c, i + 1)
    }
}

/// The values of the run of value items that starts at index `i`.
pub open spec fn value_run(items: Seq<ItemView>, i: int) -> Seq<ValueView>
    decreases items.len() - i,
{
    if i < 0 || i >= items.len() || !(items[i] is Value) {
        Seq::empty()
    } else {
        seq![items[i]->Value_0] + value_run(items, i + 1)
    }
}

/// The views of a sequence of values.
pub open spec fn values_view(v: Seq<Value>) -> Seq<ValueView> {
    v.map_values(|x: Value| x@)
}

impl ParsedArgs {
    /// The values that follow the first occurrence of `command`, up to the
    /// next item that is no value; `None` where the command does not occur.
    pub fn command_parameters(&self, command: &Command) -> (r: Option<Vec<Value>>)
        ensures
            match first_command_from(self.items(), command@, 0) {
                Some(i) => r matches Some(v) && values_view(v@) == value_run(self.items(), i + 1),
                None => r is None,
            },
    {
        let ghost items = self.items();
        let mut i: usize = 0;
        while i < self.items.len()
            invariant
                items == self.items(),
                i <= self.items@.len(),
                first_command_from(items, command@, 0) == first_command_from(
                    items,
                    command@,
                    i as int,
                ),
            decreases self.items@.len() - i,
        {
            if let ArgsItem::Command(c) = &self.items[i] {
                if c.0 == command.0 {
                    assert(items[i as int] == ItemView::Command(command@));
                    assert(first_command_from(items, command@, 0) == Some(i as int));
                    let mut r: Vec<Value> = Vec::new();
                    let mut j: usize = i + 1;
                    assert(values_view(r@) =~= Seq::<ValueView>::empty());
                    assert(values_view(r@) + value_run(items, j as int) =~= value_run(
                        items,
                        j as int,
                    ));
                    while j < self.items.len()
                        invariant
                            items == self.items(),
                            i < j <= self.items@.len(),
                            first_command_from(items, command@, 0) == Some(i as int),
                            values_view(r@) + value_run(items, j as int) == value_run(
                                items,
                                i + 1,
                            ),
                        decreases self.items@.len() - j,
                    {
                        assert(items[j as int] == self.items@[j as int]@);
                        match &self.items[j] {
                            ArgsItem::Value(v) => {
                                let ghost before = values_view(r@);
                                r.push(v.copy());
                                assert(values_view(r@) =~= before.push(v@));
                                assert(before + value_run(items, j as int) =~= values_view(r@)
                                    + value_run(items, j + 1));
                            },
                            _ => {
                                assert(values_view(r@) =~= values_view(r@) + value_run(
                                    items,
                                    j as int,
                                ));
                                return Some(r);
                            },
                        }
                        j = j + 1;
                    }
                    assert(values_view(r@) =~= values_view(r@) + value_run(items, j as int));
                    return Some(r);
                }
            }
            i = i + 1;
        }
        None
    }
}

} // verus!
