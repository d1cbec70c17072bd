//! Parsing of Minecraft commands against the command tree.

pub mod argument;
pub mod resource_location;

use crate::parser::command::argument::{argument_spec, Argument, ArgumentModel, ArgumentParser};
use crate::text::{
    after, byte_len, find_byte_from, lemma_find_byte, lemma_splittable_after_ascii, push_char,
    skip_str, split_at_space, splittable, str_eq, string_bytes,
};
use vstd::prelude::*;
use vstd::string::*;

verus! {

/// The children, the executability and the redirect of a node of the command tree.
#[derive(Debug)]
pub struct Node {
    /// The children with their names, in the order in which they are tried.
    pub children: Vec<(String, CommandSpec)>,
    /// Whether a command may end at this node.
    pub executable: bool,
    /// The path of the node that this node continues with, if any.
    pub redirect: Vec<String>,
}

/// A node of the command tree: a literal word, or an argument read by a parser.
#[derive(Debug)]
pub enum CommandSpec {
    Literal { node: Node },
    Argument { node: Node, parser: ArgumentParser },
}

/// Parses commands against a command tree.
#[derive(Debug)]
pub struct CommandParser {
    specs: Vec<(String, CommandSpec)>,
}

/// Where parsing a command failed and why.
#[derive(Clone, Debug, PartialEq)]
pub struct CommandParserError<'l> {
    pub message: String,
    pub command: &'l str,
    pub index: usize,
}

/// A node of the command tree as read from a command.
#[derive(Debug, PartialEq)]
pub enum ParsedNode<'l> {
    /// The command continues at the node with this name.
    Redirect(&'l str),
    /// A literal word at an offset.
    Literal { literal: &'l str, index: usize },
    /// An argument at an offset, with its length.
    Argument { name: &'l str, argument: Argument<'l>, index: usize, len: usize },
}

/// The nodes read from a command, and the error that stopped the reading, if any.
#[derive(Debug, PartialEq)]
pub struct CommandParserResult<'l> {
    pub parsed_nodes: Vec<ParsedNode<'l>>,
    pub error: Option<CommandParserError<'l>>,
}

/// The value of a parsed node.
pub enum ParsedNodeModel {
    Redirect(Seq<u8>),
    Literal(Seq<u8>, int),
    Argument(Seq<u8>, ArgumentModel, int, int),
}

/// The value of a parse result: the nodes, and the message and offset of the error, if any.
pub struct ResultModel {
    pub nodes: Seq<ParsedNodeModel>,
    pub error: Option<(Seq<char>, int)>,
}

impl<'l> ParsedNode<'l> {
    /// The value of this node.
    pub open spec fn model(&self) -> ParsedNodeModel {
        match self {
            ParsedNode::Redirect(r) => ParsedNodeModel::Redirect(r.spec_bytes()),
            ParsedNode::Literal { literal, index } => ParsedNodeModel::Literal(
                literal.spec_bytes(),
                *index as int,
            ),
            ParsedNode::Argument { name, argument, index, len } => ParsedNodeModel::Argument(
                name.spec_bytes(),
                argument.model(),
                *index as int,
                *len as int,
            ),
        }
    }

    /// How many bytes of the command this node takes.
    pub fn len(&self) -> (res: usize)
        ensures
            res == node_len(self.model()),
    {
        match self {
            ParsedNode::Redirect(_) => 0,
            ParsedNode::Literal { literal, .. } => byte_len(literal),
            ParsedNode::Argument { len, .. } => *len,
        }
    }
}

/// The values of parsed nodes.
pub open spec fn nodes_model(v: Seq<ParsedNode>) -> Seq<ParsedNodeModel> {
    Seq::new(v.len(), |i: int| v[i].model())
}

impl<'l> CommandParserResult<'l> {
    /// The value of this result.
    pub open spec fn model(&self) -> ResultModel {
        ResultModel {
            nodes: nodes_model(self.parsed_nodes@),
            error: match self.error {
                Some(e) => Some((e.message@, e.index as int)),
                None => None,
            },
        }
    }
}

/// How many bytes of the command a node takes.
pub open spec fn node_len(n: ParsedNodeModel) -> int {
    match n {
        ParsedNodeModel::Redirect(_) => 0,
        ParsedNodeModel::Literal(l, _) => l.len() as int,
        ParsedNodeModel::Argument(_, _, _, len) => len,
    }
}

impl CommandSpec {
    /// The node of this spec.
    pub open spec fn node_of(&self) -> &Node {
        match self {
            CommandSpec::Literal { node } => node,
            CommandSpec::Argument { node, .. } => node,
        }
    }

    /// The children of this spec.
    pub fn children(&self) -> (res: &Vec<(String, CommandSpec)>)
        ensures
            res == &self.node_of().children,
    {
        match self {
            CommandSpec::Literal { node } => &node.children,
            CommandSpec::Argument { node, .. } => &node.children,
        }
    }

    /// Whether this spec has children.
    pub fn has_children(&self) -> (res: bool)
        ensures
            res == (self.node_of().children@.len() > 0),
    {
        self.children().len() != 0
    }

    /// Whether a command may end at this spec.
    pub fn executable(&self) -> (res: bool)
        ensures
            res == self.node_of().executable,
    {
        match self {
            CommandSpec::Literal { node } => node.executable,
            CommandSpec::Argument { node, .. } => node.executable,
        }
    }

    /// The redirect of this spec, if any; several redirects are an error.
    pub fn redirect(&self) -> (res: Result<Option<&String>, String>)
        ensures
            ({
                let r = self.node_of().redirect;
                if r@.len() > 1 {
                    res matches Err(e) && e@ == multi_redirect_message(r.deep_view())
                } else if r@.len() == 1 {
                    res matches Ok(Some(x)) && *x == r@[0]
                } else {
                    res matches Ok(None)
                }
            }),
    {
        let redirect = match self {
            CommandSpec::Literal { node } => &node.redirect,
            CommandSpec::Argument { node, .. } => &node.redirect,
        };
        if redirect.len() > 1 {
            Err(format_multi_redirect(redirect))
        } else if redirect.len() == 1 {
            Ok(Some(&redirect[0]))
        } else {
            Ok(None)
        }
    }
}

/// The message for a node with several redirects: the redirects as Rust's `Debug` formatting
/// writes a vector of strings, after a fixed text.
pub uninterp spec fn multi_redirect_message(redirect: Seq<Seq<char>>) -> Seq<char>;

/// `format!("Multi redirect is not supported: {:?}", redirect)`: the fixed text followed by the
/// `Debug` formatting of the redirects. The result is a function of the redirects alone; of the
/// formatting, which escapes characters, nothing more is stated.
#[verifier::external_body]
fn format_multi_redirect(redirect: &Vec<String>) -> (res: String)
    ensures
        res@ == multi_redirect_message(redirect.deep_view()),
        "Multi redirect is not supported: "@.is_prefix_of(res@),
{
    format!("Multi redirect is not supported: {:?}", redirect)
}

/// The word at offset `index` of `cmd`: the text up to the next space.
pub open spec fn literal_at(cmd: Seq<u8>, index: int) -> Seq<u8> {
    let s = after(cmd, index);
    s.subrange(0, find_byte_from(s, 0, ' ' as u8))
}

/// The node that `spec` named `name` reads at offset `index` of `cmd`.
#[verifier::opaque]
pub open spec fn node_spec(name: Seq<u8>, spec: CommandSpec, cmd: Seq<u8>, index: int) -> Result<
    ParsedNodeModel,
    Seq<char>,
> {
    match spec {
        CommandSpec::Literal { .. } => {
            let literal = literal_at(cmd, index);
            if literal == name {
                Ok(ParsedNodeModel::Literal(literal, index))
            } else {
                Err("Incorrect literal for command"@)
            }
        },
        CommandSpec::Argument { parser, .. } => match argument_spec(parser, after(cmd, index)) {
            Ok((a, n)) => Ok(ParsedNodeModel::Argument(name, a, index, n)),
            Err(m) => Err(m),
        },
    }
}

/// The first position at or after `i` of a literal spec named `literal` in `specs`.
pub open spec fn find_literal_from(specs: Seq<(String, CommandSpec)>, literal: Seq<u8>, i: int) -> Option<int>
    decreases specs.len() - i,
{
    if i < 0 || i >= specs.len() {
        None
    } else if string_bytes(&specs[i].0) == literal && specs[i].1 is Literal {
        Some(i)
    } else {
        find_literal_from(specs, literal, i + 1)
    }
}

/// The positions of the argument specs among the first `n` of `specs`, in order.
pub open spec fn argument_positions(specs: Seq<(String, CommandSpec)>, n: int) -> Seq<int>
    decreases n,
{
    if n <= 0 {
        seq![]
    } else if specs[n - 1].1 is Argument {
        argument_positions(specs, n - 1).push(n - 1)
    } else {
        argument_positions(specs, n - 1)
    }
}

/// The positions of the specs to try at offset `index` of `cmd`: the literal spec that matches
/// the next word, or else every argument spec.
pub open spec fn relevant_spec(specs: Seq<(String, CommandSpec)>, cmd: Seq<u8>, index: int) -> Seq<int> {
    match find_literal_from(specs, literal_at(cmd, index), 0) {
        Some(i) => seq![i],
        None => argument_positions(specs, specs.len() as int),
    }
}

/// The position of the first spec named `name` in `specs`.
pub open spec fn find_name_from(specs: Seq<(String, CommandSpec)>, name: Seq<u8>, i: int) -> Option<int>
    decreases specs.len() - i,
{
    if i < 0 || i >= specs.len() {
        None
    } else if string_bytes(&specs[i].0) == name {
        Some(i)
    } else {
        find_name_from(specs, name, i + 1)
    }
}

/// A result without nodes that failed at `index` with `message`.
pub open spec fn error_result(nodes: Seq<ParsedNodeModel>, message: Seq<char>, index: int) -> ResultModel {
    ResultModel { nodes, error: Some((message, index)) }
}

/// The message for a command that continues with an argument that no spec reads.
pub open spec fn incorrect_argument_message() -> Seq<char> {
    "Incorrect argument for command"@
}

/// The message for a node followed by neither a space nor the end.
pub open spec fn trailing_data_message() -> Seq<char> {
    "Expected whitespace to end one argument, but found trailing data"@
}

/// The result of reading `cmd` from offset `index` with the spec `spec` named `name`, where
/// `root` are the specs at the root of the command tree.
pub open spec fn single_spec(
    root: Seq<(String, CommandSpec)>,
    name: Seq<u8>,
    spec: CommandSpec,
    cmd: Seq<u8>,
    index: int,
) -> ResultModel
    decreases cmd.len() - index, 1int, 0int,
{
    match node_spec(name, spec, cmd, index) {
        Err(m) => error_result(seq![], m, index),
        Ok(node) => {
            let i2 = index + node_len(node);
            let nodes = seq![node];
            if i2 >= cmd.len() {
                if spec.node_of().executable {
                    ResultModel { nodes, error: None }
                } else {
                    error_result(nodes, "Incomplete command"@, i2)
                }
            } else if cmd[i2] != ' ' as u8 || !(index < i2 + 1) {
                error_result(nodes, trailing_data_message(), i2)
            } else {
                let i3 = i2 + 1;
                let redirect = spec.node_of().redirect;
                if redirect@.len() > 1 {
                    error_result(nodes, multi_redirect_message(redirect.deep_view()), i3)
                } else if redirect@.len() == 1 {
                    let r = redirect@[0];
                    match find_name_from(root, string_bytes(&r), 0) {
                        None => error_result(nodes, "Failed to resolve redirect "@ + r@, i3),
                        Some(t) => {
                            let rest = specs_spec(root, root[t].1.node_of().children@, cmd, i3);
                            ResultModel {
                                nodes: nodes.push(ParsedNodeModel::Redirect(string_bytes(&r)))
                                    + rest.nodes,
                                error: rest.error,
                            }
                        },
                    }
                } else {
                    let children = if spec.node_of().children@.len() > 0 {
                        Some(spec.node_of().children@)
                    } else if !spec.node_of().executable {
                        Some(root)
                    } else {
                        None
                    };
                    match children {
                        None => error_result(nodes, incorrect_argument_message(), i3),
                        Some(c) => {
                            let rest = specs_spec(root, c, cmd, i3);
                            ResultModel { nodes: nodes + rest.nodes, error: rest.error }
                        },
                    }
                }
            }
        },
    }
}

/// The results of reading `cmd` from offset `index` with each of the specs at the positions
/// `cands` of `specs`.
pub open spec fn results_spec(
    root: Seq<(String, CommandSpec)>,
    specs: Seq<(String, CommandSpec)>,
    cands: Seq<int>,
    cmd: Seq<u8>,
    index: int,
) -> Seq<ResultModel>
    decreases cmd.len() - index, 2int, cands.len(),
{
    if cands.len() == 0 {
        seq![]
    } else {
        let c = cands.last();
        results_spec(root, specs, cands.drop_last(), cmd, index).push(
            single_spec(root, string_bytes(&specs[c].0), specs[c].1, cmd, index),
        )
    }
}

/// The position among the first `n` results of the last one with the most nodes.
pub open spec fn deepest(rs: Seq<ResultModel>, n: int) -> int
    decreases n,
{
    if n <= 1 {
        0
    } else {
        let b = deepest(rs, n - 1);
        if rs[n - 1].nodes.len() >= rs[b].nodes.len() {
            n - 1
        } else {
            b
        }
    }
}

/// The position of the first result at or after `i` without error.
pub open spec fn first_success(rs: Seq<ResultModel>, i: int) -> Option<int>
    decreases rs.len() - i,
{
    if i < 0 || i >= rs.len() {
        None
    } else if rs[i].error is None {
        Some(i)
    } else {
        first_success(rs, i + 1)
    }
}

/// The result of reading `cmd` from offset `index` with the specs `specs`: the first success, or
/// else the error of the last reading that got furthest in nodes, or else a plain error.
pub open spec fn choose_result(rs: Seq<ResultModel>, index: int) -> ResultModel {
    match first_success(rs, 0) {
        Some(i) => rs[i],
        None => if rs.len() == 0 {
            error_result(seq![], incorrect_argument_message(), index)
        } else {
            rs[deepest(rs, rs.len() as int)]
        },
    }
}

/// The result of reading `cmd` from offset `index` with the specs `specs`, where `root` are the
/// specs at the root of the command tree.
pub open spec fn specs_spec(
    root: Seq<(String, CommandSpec)>,
    specs: Seq<(String, CommandSpec)>,
    cmd: Seq<u8>,
    index: int,
) -> ResultModel
    decreases cmd.len() - index, 3int, 0int,
{
    choose_result(results_spec(root, specs, relevant_spec(specs, cmd, index), cmd, index), index)
}

impl CommandSpec {
    /// The node that this spec, named `name`, reads at offset `index` of `command`.
    pub fn parse<'l>(&self, name: &'l str, command: &'l str, index: usize) -> (res: Result<ParsedNode<'l>, String>)
        requires
            index <= command.spec_bytes().len(),
            splittable(command.spec_bytes(), index as int),
        ensures
            match node_spec(name.spec_bytes(), *self, command.spec_bytes(), index as int) {
                Ok(m) => res matches Ok(n) && n.model() == m && 0 <= node_len(m)
                    <= command.spec_bytes().len() - index,
                Err(e) => res matches Err(x) && x@ == e,
            },
    {
        proof {
            reveal(node_spec);
        }
        let string = skip_str(command, index);
        match self {
            CommandSpec::Literal { .. } => {
                let (literal, _) = split_at_space(string);
                proof {
                    lemma_find_byte(string.spec_bytes(), 0, ' ' as u8);
                }
                if str_eq(literal, name) {
                    Ok(ParsedNode::Literal { literal, index })
                } else {
                    Err(String::from_str("Incorrect literal for command"))
                }
            },
            CommandSpec::Argument { parser, .. } => match parser.parse(string) {
                Ok((argument, len)) => Ok(ParsedNode::Argument { name, argument, index, len }),
                Err(e) => Err(e),
            },
        }
    }
}

/// The values of parse results.
pub open spec fn results_model(v: Seq<CommandParserResult>) -> Seq<ResultModel> {
    Seq::new(v.len(), |i: int| v[i].model())
}

/// Every error among the results is about `command`.
pub open spec fn errors_about(v: Seq<CommandParserResult>, command: &str) -> bool {
    forall|i: int| 0 <= i < v.len() ==> (#[trigger] v[i].error matches Some(e) ==> e.command == command)
}

/// Positions as integers.
pub open spec fn positions(v: Seq<usize>) -> Seq<int> {
    Seq::new(v.len(), |i: int| v[i] as int)
}

/// The node of a spec.
pub open spec fn node_of(spec: CommandSpec) -> Node {
    match spec {
        CommandSpec::Literal { node } => node,
        CommandSpec::Argument { node, .. } => node,
    }
}

/// The names of `children` come in strictly increasing byte order, each name once, and so do
/// the names of the children of each child, at every depth, as in the map of names to nodes of
/// the command tree.
pub open spec fn tree_ordered(children: Seq<(String, CommandSpec)>) -> bool
    decreases children,
{
    &&& forall|i: int, j: int|
        0 <= i < j < children.len() ==> crate::sorted::bytes_lt(
            string_bytes(&#[trigger] children[i].0),
            string_bytes(&#[trigger] children[j].0),
        )
    &&& forall|i: int|
        0 <= i < children.len() ==> tree_ordered(#[trigger] node_of(children[i].1).children@)
}

/// Whether the names of `children` come in strictly increasing byte order at every depth, as
/// `tree_ordered` says.
pub fn is_tree_ordered(children: &Vec<(String, CommandSpec)>) -> (res: bool)
    ensures
        res == tree_ordered(children@),
    decreases children@,
{
    let mut i: usize = 0;
    while i < children.len()
        invariant
            i <= children@.len(),
            forall|a: int, b: int|
                0 <= a < b < i ==> crate::sorted::bytes_lt(
                    string_bytes(&#[trigger] children@[a].0),
                    string_bytes(&#[trigger] children@[b].0),
                ),
            forall|a: int| 0 <= a < i ==> tree_ordered(#[trigger] node_of(children@[a].1).children@),
        decreases children@.len() - i,
    {
        if i > 0 && !crate::sorted::str_lt(children[i - 1].0.as_str(), children[i].0.as_str()) {
            proof {
                let a = i - 1;
                let b = i as int;
                assert(!crate::sorted::bytes_lt(string_bytes(&children@[a].0), string_bytes(&children@[b].0)));
            }
            return false;
        }
        let node = match &children[i].1 {
            CommandSpec::Literal { node } => node,
            CommandSpec::Argument { node, .. } => node,
        };
        proof {
            assert(decreases_to!(children@ => children@[i as int]));
        }
        if !is_tree_ordered(&node.children) {
            proof {
                assert(node_of(children@[i as int].1).children@ == node.children@);
                assert(!tree_ordered(node_of(children@[i as int].1).children@));
            }
            return false;
        }
        proof {
            if i > 0 {
                assert forall|a: int| 0 <= a < i implies crate::sorted::bytes_lt(
                    string_bytes(&#[trigger] children@[a].0),
                    string_bytes(&children@[i as int].0),
                ) by {
                    if a < i - 1 {
                        crate::sorted::lemma_bytes_lt_transitive(
                            string_bytes(&children@[a].0),
                            string_bytes(&children@[i - 1].0),
                            string_bytes(&children@[i as int].0),
                        );
                    }
                }
            }
        }
        i = i + 1;
    }
    true
}

impl CommandParser {
    /// Each name of the command tree comes once, and the names at each depth in byte order, as
    /// in the map of names to nodes that the tree is.
    #[verifier::type_invariant]
    spec fn ordered(self) -> bool {
        tree_ordered(self.specs@)
    }

    /// A parser for the command tree with the given root specs, which are tried in their order.
    pub fn new(specs: Vec<(String, CommandSpec)>) -> (res: CommandParser)
        requires
            tree_ordered(specs@),
        ensures
            res.specs() == specs@,
    {
        CommandParser { specs }
    }

    /// A parser for the command tree with the given root specs, where the names at each depth of
    /// the tree come in strictly increasing byte order; `None` where they do not.
    pub fn from_tree(specs: Vec<(String, CommandSpec)>) -> (res: Option<CommandParser>)
        ensures
            match res {
                Some(p) => tree_ordered(specs@) && p.specs() == specs@,
                None => !tree_ordered(specs@),
            },
    {
        if is_tree_ordered(&specs) {
            Some(CommandParser { specs })
        } else {
            None
        }
    }

    /// The specs at the root of the command tree.
    pub closed spec fn specs(&self) -> Seq<(String, CommandSpec)> {
        self.specs@
    }

    /// The nodes read from `command`, and the error that stopped the reading, if any.
    pub fn parse<'l>(&'l self, command: &'l str) -> (res: CommandParserResult<'l>)
        ensures
            res.model() == specs_spec(self.specs(), self.specs(), command.spec_bytes(), 0),
            res.error matches Some(e) ==> e.command == command,
    {
        proof {
            lemma_splittable_after_ascii(command, 0);
        }
        self.parse_from_specs(command, 0, &self.specs)
    }

    /// The position of the literal spec named `literal` among `specs`.
    fn find_literal_command(literal: &str, specs: &Vec<(String, CommandSpec)>) -> (res: Option<usize>)
        ensures
            find_literal_from(specs@, literal.spec_bytes(), 0) == match res {
                Some(x) => Some(x as int),
                None => None::<int>,
            },
            res matches Some(x) ==> x < specs@.len(),
    {
        let mut i: usize = 0;
        while i < specs.len()
            invariant
                i <= specs@.len(),
                find_literal_from(specs@, literal.spec_bytes(), i as int) == find_literal_from(
                    specs@,
                    literal.spec_bytes(),
                    0,
                ),
            decreases specs@.len() - i,
        {
            if str_eq(specs[i].0.as_str(), literal) && matches!(specs[i].1, CommandSpec::Literal { .. }) {
                return Some(i);
            }
            i = i + 1;
        }
        None
    }

    /// The positions of the specs to try at offset `index` of `command`.
    fn find_relevant_commands(command: &str, index: usize, specs: &Vec<(String, CommandSpec)>) -> (res: Vec<usize>)
        requires
            index <= command.spec_bytes().len(),
            splittable(command.spec_bytes(), index as int),
        ensures
            positions(res@) == relevant_spec(specs@, command.spec_bytes(), index as int),
            forall|i: int| 0 <= i < res@.len() ==> res@[i] < specs@.len(),
    {
        let string = skip_str(command, index);
        let (literal, _) = split_at_space(string);
        match Self::find_literal_command(literal, specs) {
            Some(i) => {
                let mut res = Vec::new();
                res.push(i);
                proof {
                    assert(positions(res@) =~= seq![i as int]);
                }
                res
            },
            None => {
                let mut res: Vec<usize> = Vec::new();
                let mut i: usize = 0;
                proof {
                    assert(positions(res@) =~= argument_positions(specs@, 0));
                }
                while i < specs.len()
                    invariant
                        i <= specs@.len(),
                        positions(res@) == argument_positions(specs@, i as int),
                        forall|j: int| 0 <= j < res@.len() ==> res@[j] < i,
                    decreases specs@.len() - i,
                {
                    if matches!(specs[i].1, CommandSpec::Argument { .. }) {
                        res.push(i);
                        proof {
                            assert(positions(res@) =~= argument_positions(specs@, i + 1));
                        }
                    }
                    i = i + 1;
                }
                res
            },
        }
    }

    /// The result of reading `command` from offset `index` with the specs `specs`.
    fn parse_from_specs<'l>(
        &'l self,
        command: &'l str,
        index: usize,
        specs: &'l Vec<(String, CommandSpec)>,
    ) -> (res: CommandParserResult<'l>)
        requires
            index <= command.spec_bytes().len(),
            splittable(command.spec_bytes(), index as int),
        ensures
            res.model() == specs_spec(self.specs(), specs@, command.spec_bytes(), index as int),
            res.error matches Some(e) ==> e.command == command,
        decreases command.spec_bytes().len() - index, 3int, 0int,
    {
        let ghost cmd = command.spec_bytes();
        let cands = Self::find_relevant_commands(command, index, specs);
        let ghost cs = positions(cands@);
        let mut results: Vec<CommandParserResult<'l>> = Vec::new();
        let mut k: usize = 0;
        proof {
            assert(cs.take(0) =~= seq![]);
            assert(results_model(results@) =~= seq![]);
        }
        while k < cands.len()
            invariant
                k <= cands@.len(),
                cs == positions(cands@),
                cmd == command.spec_bytes(),
                index <= cmd.len(),
                splittable(cmd, index as int),
                forall|i: int| 0 <= i < cands@.len() ==> cands@[i] < specs@.len(),
                results_model(results@) == results_spec(self.specs(), specs@, cs.take(k as int), cmd, index as int),
                errors_about(results@, command),
            decreases cands@.len() - k,
        {
            let c = cands[k];
            let r = self.parse_from_single_spec(specs[c].0.as_str(), &specs[c].1, command, index);
            let ghost old_results = results@;
            results.push(r);
            proof {
                assert(cs.take(k + 1).drop_last() =~= cs.take(k as int));
                assert(results_model(results@) =~= results_model(old_results).push(r.model()));
            }
            k = k + 1;
        }
        proof {
            assert(cs.take(cands@.len() as int) =~= cs);
        }
        let ghost rs = results_model(results@);
        assert(choose_result(rs, index as int) == specs_spec(self.specs(), specs@, cmd, index as int));
        let mut i: usize = 0;
        while i < results.len()
            invariant
                i <= results@.len(),
                rs == results_model(results@),
                first_success(rs, i as int) == first_success(rs, 0),
                choose_result(rs, index as int) == specs_spec(self.specs(), specs@, cmd, index as int),
                cmd == command.spec_bytes(),
                errors_about(results@, command),
            decreases results@.len() - i,
        {
            if results[i].error.is_none() {
                proof {
                    assert(rs[i as int].error is None);
                    assert(first_success(rs, i as int) == Some(i as int));
                    assert(choose_result(rs, index as int) == rs[i as int]);
                    assert(results@[i as int].error matches Some(e) ==> e.command == command);
                }
                let r = results.remove(i);
                proof {
                    assert(r.model() == rs[i as int]);
                }
                return r;
            }
            i = i + 1;
        }
        if results.len() == 0 {
            let parsed_nodes: Vec<ParsedNode<'l>> = Vec::new();
            proof {
                assert(nodes_model(parsed_nodes@) =~= seq![]);
            }
            return CommandParserResult {
                parsed_nodes,
                error: Some(
                    CommandParserError {
                        message: String::from_str("Incorrect argument for command"),
                        command,
                        index,
                    },
                ),
            };
        }
        let mut best: usize = 0;
        let mut j: usize = 1;
        while j < results.len()
            invariant
                1 <= j <= results@.len(),
                rs == results_model(results@),
                best == deepest(rs, j as int),
                best < j,
                first_success(rs, 0) is None,
                choose_result(rs, index as int) == specs_spec(self.specs(), specs@, cmd, index as int),
                cmd == command.spec_bytes(),
                errors_about(results@, command),
            decreases results@.len() - j,
        {
            if results[j].parsed_nodes.len() >= results[best].parsed_nodes.len() {
                best = j;
            }
            j = j + 1;
        }
        proof {
            assert(results@[best as int].error matches Some(e) ==> e.command == command);
        }
        results.remove(best)
    }

    /// The position of the root spec named `name`.
    fn find_root(&self, name: &str) -> (res: Option<usize>)
        ensures
            find_name_from(self.specs(), name.spec_bytes(), 0) == match res {
                Some(x) => Some(x as int),
                None => None::<int>,
            },
            res matches Some(x) ==> x < self.specs().len(),
    {
        let mut i: usize = 0;
        while i < self.specs.len()
            invariant
                i <= self.specs@.len(),
                find_name_from(self.specs@, name.spec_bytes(), i as int) == find_name_from(
                    self.specs@,
                    name.spec_bytes(),
                    0,
                ),
            decreases self.specs@.len() - i,
        {
            if str_eq(self.specs[i].0.as_str(), name) {
                return Some(i);
            }
            i = i + 1;
        }
        None
    }

    /// The result of reading `command` from offset `index` with the spec `spec` named `name`.
    fn parse_from_single_spec<'l>(
        &'l self,
        name: &'l str,
        spec: &'l CommandSpec,
        command: &'l str,
        index: usize,
    ) -> (res: CommandParserResult<'l>)
        requires
            index <= command.spec_bytes().len(),
            splittable(command.spec_bytes(), index as int),
        ensures
            res.model() == single_spec(
                self.specs(),
                name.spec_bytes(),
                *spec,
                command.spec_bytes(),
                index as int,
            ),
            res.error matches Some(e) ==> e.command == command,
        decreases command.spec_bytes().len() - index, 1int, 0int,
    {
        let ghost cmd = command.spec_bytes();
        let mut parsed_nodes: Vec<ParsedNode<'l>> = Vec::new();
        let node = match spec.parse(name, command, index) {
            Ok(node) => node,
            Err(message) => {
                proof {
                    assert(nodes_model(parsed_nodes@) =~= seq![]);
                }
                return CommandParserResult {
                    parsed_nodes,
                    error: Some(CommandParserError { message, command, index }),
                };
            },
        };
        let n = byte_len(command);
        let index2 = index + node.len();
        let ghost node_model = node.model();
        parsed_nodes.push(node);
        proof {
            assert(nodes_model(parsed_nodes@) =~= seq![node_model]);
        }
        if index2 >= n {
            if spec.executable() {
                return CommandParserResult { parsed_nodes, error: None };
            } else {
                return CommandParserResult {
                    parsed_nodes,
                    error: Some(
                        CommandParserError {
                            message: String::from_str("Incomplete command"),
                            command,
                            index: index2,
                        },
                    ),
                };
            }
        }
        if command.as_bytes()[index2] != ' ' as u8 {
            return CommandParserResult {
                parsed_nodes,
                error: Some(
                    CommandParserError {
                        message: String::from_str(
                            "Expected whitespace to end one argument, but found trailing data",
                        ),
                        command,
                        index: index2,
                    },
                ),
            };
        }
        let index3 = index2 + 1;
        proof {
            lemma_splittable_after_ascii(command, index3 as int);
        }
        let redirect = match spec.redirect() {
            Ok(redirect) => redirect,
            Err(message) => {
                return CommandParserResult {
                    parsed_nodes,
                    error: Some(CommandParserError { message, command, index: index3 }),
                };
            },
        };
        let children = match redirect {
            Some(redirect) => match self.find_root(redirect.as_str()) {
                Some(t) => {
                    let ghost before = nodes_model(parsed_nodes@);
                    parsed_nodes.push(ParsedNode::Redirect(redirect.as_str()));
                    proof {
                        assert(nodes_model(parsed_nodes@) =~= before.push(
                            ParsedNodeModel::Redirect(string_bytes(redirect)),
                        ));
                    }
                    self.specs[t].1.children()
                },
                None => {
                    let mut message = String::from_str("Failed to resolve redirect ");
                    message.append(redirect.as_str());
                    return CommandParserResult {
                        parsed_nodes,
                        error: Some(CommandParserError { message, command, index: index3 }),
                    };
                },
            },
            None => if spec.has_children() {
                spec.children()
            } else if !spec.executable() {
                &self.specs
            } else {
                return CommandParserResult {
                    parsed_nodes,
                    error: Some(
                        CommandParserError {
                            message: String::from_str("Incorrect argument for command"),
                            command,
                            index: index3,
                        },
                    ),
                };
            },
        };
        let mut result = self.parse_from_specs(command, index3, children);
        let ghost before = nodes_model(parsed_nodes@);
        let ghost rest = nodes_model(result.parsed_nodes@);
        parsed_nodes.append(&mut result.parsed_nodes);
        proof {
            assert(nodes_model(parsed_nodes@) =~= before + rest);
        }
        result.parsed_nodes = parsed_nodes;
        result
    }
}

/// How an error is shown: the message, the command, and a caret under the offset.
pub open spec fn error_text(message: Seq<char>, command: Seq<char>, index: nat) -> Seq<char> {
    message + ":\n"@ + command + "\n"@ + Seq::new(index, |i: int| ' ') + "^"@
}

impl<'l> CommandParserError<'l> {
    /// The message, the command and a caret under the offset of the error.
    pub fn to_string(&self) -> (res: String)
        ensures
            res@ == error_text(self.message@, self.command@, self.index as nat),
    {
        let mut res = self.message.clone();
        res.append(":\n");
        res.append(self.command);
        res.append("\n");
        let ghost head = res@;
        let mut i: usize = 0;
        while i < self.index
            invariant
                i <= self.index,
                res@ == head + Seq::new(i as nat, |j: int| ' '),
            decreases self.index - i,
        {
            push_char(&mut res, ' ');
            i = i + 1;
            proof {
                assert(res@ =~= head + Seq::new(i as nat, |j: int| ' '));
            }
        }
        res.append("^");
        res
    }
}

} // verus!
