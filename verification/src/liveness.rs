//! Liveness of recognized Specification definitions: a factory site is live by its presence, a
//! named Python declaration is live when a resolved runtime use reaches it, dead only when it
//! is private, unused and inside a declared closed world, and unknown otherwise.
use vstd::prelude::*;

use crate::model::{
    DefinitionView, Language, LivenessView, SpecificationDefinition, SpecificationLiveness,
    SpecificationLivenessStatus,
};
use crate::syntax::{
    field_child, field_index, field_position, parse_outcome, parse_source, ParseOutcome,
    SyntaxNode,
};
use crate::text::{
    after_last, append_chars, copy_range, equal_chars, is_text, is_whitespace, is_ws,
    last_position_of_any, lemma_rfind_any_bounds, lemma_skip_ws_bounds, replace_char, replaced,
    rfind_any, skip_whitespace, skip_ws, starts_with, starts_with_exec, strip_prefix_exec,
    strip_prefix_or, strip_suffix_exec, strip_suffix_or, suffix_after_last, to_chars,
    lemma_after_last_suffix,
};

verus! {

// ------------------------------------------------------------------ names and module paths

/// `s.split(c)`: the pieces between the occurrences of `c`.
pub open spec fn split_on(s: Seq<char>, c: char) -> Seq<Seq<char>>
    decreases s.len(),
{
    if s.len() == 0 {
        seq![Seq::empty()]
    } else {
        let earlier = split_on(s.drop_last(), c);
        if s.last() == c {
            earlier.push(Seq::empty())
        } else {
            earlier.update(earlier.len() - 1, earlier.last().push(s.last()))
        }
    }
}

/// The pieces joined with `c` between them.
pub open spec fn join_with(pieces: Seq<Seq<char>>, c: char) -> Seq<char>
    decreases pieces.len(),
{
    if pieces.len() == 0 {
        Seq::empty()
    } else if pieces.len() == 1 {
        pieces[0]
    } else {
        join_with(pieces.drop_last(), c).push(c) + pieces.last()
    }
}

proof fn lemma_split_nonempty(s: Seq<char>, c: char)
    ensures
        split_on(s, c).len() >= 1,
    decreases s.len(),
{
    if s.len() > 0 {
        lemma_split_nonempty(s.drop_last(), c);
    }
}

/// The character sequences of a list of pieces.
pub open spec fn pieces_view(pieces: Seq<Vec<char>>) -> Seq<Seq<char>> {
    pieces.map_values(|piece: Vec<char>| piece@)
}

pub(crate) fn split_chars(s: &[char], c: char) -> (r: Vec<Vec<char>>)
    ensures
        pieces_view(r@) == split_on(s@, c),
{
    let mut pieces: Vec<Vec<char>> = Vec::new();
    let mut current: Vec<char> = Vec::new();
    let mut i: usize = 0;
    while i < s.len()
        invariant
            i <= s@.len(),
            pieces_view(pieces@).push(current@) == split_on(s@.take(i as int), c),
        decreases s@.len() - i,
    {
        let ghost before = pieces_view(pieces@).push(current@);
        assert(s@.take(i + 1).drop_last() =~= s@.take(i as int));
        assert(s@.take(i + 1).last() == s@[i as int]);
        proof {
            lemma_split_nonempty(s@.take(i as int), c);
        }
        if s[i] == c {
            let ghost old_pieces = pieces_view(pieces@);
            let finished = current;
            pieces.push(finished);
            current = Vec::new();
            assert(pieces_view(pieces@) =~= old_pieces.push(finished@));
            assert(pieces_view(pieces@).push(current@) =~= before.push(Seq::empty()));
        } else {
            let ghost old_current = current@;
            current.push(s[i]);
            assert(pieces_view(pieces@).push(current@) =~= before.update(
                before.len() - 1,
                before.last().push(s@[i as int]),
            ));
        }
        i = i + 1;
    }
    assert(s@.take(i as int) =~= s@);
    let ghost old_pieces = pieces_view(pieces@);
    pieces.push(current);
    assert(pieces_view(pieces@) =~= old_pieces.push(current@));
    pieces
}

fn join_chars(pieces: &Vec<Vec<char>>, c: char) -> (r: Vec<char>)
    ensures
        r@ == join_with(pieces_view(pieces@), c),
{
    let mut r: Vec<char> = Vec::new();
    let mut i: usize = 0;
    while i < pieces.len()
        invariant
            i <= pieces@.len(),
            r@ == join_with(pieces_view(pieces@).take(i as int), c),
        decreases pieces@.len() - i,
    {
        let ghost prefix = pieces_view(pieces@).take(i + 1);
        assert(prefix.drop_last() =~= pieces_view(pieces@).take(i as int));
        assert(prefix.last() == pieces@[i as int]@);
        if i > 0 {
            r.push(c);
        } else {
            assert(prefix.len() == 1);
        }
        append_chars(&mut r, pieces[i].as_slice());
        i = i + 1;
    }
    assert(pieces_view(pieces@).take(i as int) =~= pieces_view(pieces@));
    r
}

/// The Python module of a source path: `src/` and `.py` stripped, a package's `__init__` named
/// by its directory, and `/` written as `.`.
pub open spec fn module_name(path: Seq<char>) -> Seq<char> {
    let inside = strip_prefix_or(path, "src/"@);
    let module = strip_suffix_or(inside, ".py"@);
    let module = strip_suffix_or(module, "/__init__"@);
    replace_char(module, '/', '.')
}

fn module_of(path: &str) -> (r: Vec<char>)
    ensures
        r@ == module_name(path@),
{
    let chars = to_chars(path);
    let src = to_chars("src/");
    let py = to_chars(".py");
    let init = to_chars("/__init__");
    let inside = strip_prefix_exec(chars.as_slice(), src.as_slice());
    let module = strip_suffix_exec(inside.as_slice(), py.as_slice());
    let module = strip_suffix_exec(module.as_slice(), init.as_slice());
    replaced(module.as_slice(), '/', '.')
}

/// The index just past the leading run of `.` from `i`.
pub open spec fn dots_end(s: Seq<char>, i: int) -> int
    decreases s.len() - i,
{
    if 0 <= i < s.len() && s[i] == '.' {
        dots_end(s, i + 1)
    } else {
        i
    }
}

proof fn lemma_dots_end_bounds(s: Seq<char>, i: int)
    requires
        0 <= i <= s.len(),
    ensures
        i <= dots_end(s, i) <= s.len(),
    decreases s.len() - i,
{
    if i < s.len() && s[i] == '.' {
        lemma_dots_end_bounds(s, i + 1);
    }
}

/// The module that an import names, relative imports resolved against the importing file:
/// each leading dot beyond the first climbs one package.
pub open spec fn resolve_import_module(source_path: Seq<char>, import: Seq<char>) -> Seq<char> {
    let dots = dots_end(import, 0);
    if dots == 0 {
        import
    } else {
        let suffix = replace_char(import.subrange(dots, import.len() as int), '.', '/');
        let file_module = strip_suffix_or(strip_prefix_or(source_path, "src/"@), ".py"@);
        let package = split_on(file_module, '/');
        let kept = if package.len() > dots {
            package.take(package.len() - dots)
        } else {
            Seq::empty()
        };
        let pieces = if suffix.len() > 0 {
            kept + split_on(suffix, '/')
        } else {
            kept
        };
        join_with(pieces, '.')
    }
}

fn resolve_import(source_path: &str, import: &str) -> (r: Vec<char>)
    ensures
        r@ == resolve_import_module(source_path@, import@),
{
    let text = to_chars(import);
    let mut dots: usize = 0;
    while dots < text.len() && text[dots] == '.'
        invariant
            dots <= text@.len(),
            dots_end(text@, 0) == dots_end(text@, dots as int),
        decreases text@.len() - dots,
    {
        dots = dots + 1;
    }
    if dots == 0 {
        return text;
    }
    let rest = copy_range(text.as_slice(), dots, text.len());
    let suffix = replaced(rest.as_slice(), '.', '/');
    let path = to_chars(source_path);
    let src = to_chars("src/");
    let py = to_chars(".py");
    let inside = strip_prefix_exec(path.as_slice(), src.as_slice());
    let file_module = strip_suffix_exec(inside.as_slice(), py.as_slice());
    let package = split_chars(file_module.as_slice(), '/');
    let mut pieces: Vec<Vec<char>> = Vec::new();
    if package.len() > dots {
        let keep = package.len() - dots;
        let mut i: usize = 0;
        while i < keep
            invariant
                i <= keep <= package@.len(),
                pieces_view(pieces@) =~= pieces_view(package@).take(i as int),
            decreases keep - i,
        {
            let ghost before = pieces_view(pieces@);
            let piece = copy_range(package[i].as_slice(), 0, package[i].len());
            assert(piece@ =~= package@[i as int]@);
            pieces.push(piece);
            assert(pieces_view(pieces@) =~= before.push(pieces_view(package@)[i as int]));
            assert(pieces_view(package@).take(i + 1) =~= pieces_view(package@).take(i as int).push(
                pieces_view(package@)[i as int],
            ));
            i = i + 1;
        }
    }
    let ghost kept = pieces_view(pieces@);
    if suffix.len() > 0 {
        let tail = split_chars(suffix.as_slice(), '/');
        let mut i: usize = 0;
        while i < tail.len()
            invariant
                i <= tail@.len(),
                pieces_view(pieces@) =~= kept + pieces_view(tail@).take(i as int),
            decreases tail@.len() - i,
        {
            let ghost before = pieces_view(pieces@);
            let piece = copy_range(tail[i].as_slice(), 0, tail[i].len());
            assert(piece@ =~= tail@[i as int]@);
            pieces.push(piece);
            assert(pieces_view(pieces@) =~= before.push(pieces_view(tail@)[i as int]));
            assert(pieces_view(tail@).take(i + 1) =~= pieces_view(tail@).take(i as int).push(
                pieces_view(tail@)[i as int],
            ));
            i = i + 1;
        }
        assert(pieces_view(tail@).take(i as int) =~= pieces_view(tail@));
    }
    join_chars(&pieces, '.')
}

/// The index of the first whitespace character at or after `i`, or the length.
pub open spec fn word_end(s: Seq<char>, i: int) -> int
    decreases s.len() - i,
{
    if i < 0 || i >= s.len() {
        s.len() as int
    } else if is_ws(s[i]) {
        i
    } else {
        word_end(s, i + 1)
    }
}

proof fn lemma_word_end_bounds(s: Seq<char>, i: int)
    requires
        0 <= i <= s.len(),
    ensures
        i <= word_end(s, i) <= s.len(),
    decreases s.len() - i,
{
    if i < s.len() && !is_ws(s[i]) {
        lemma_word_end_bounds(s, i + 1);
    }
}

/// `text.split_whitespace().next().unwrap_or(text)`.
pub open spec fn first_word(text: Seq<char>) -> Seq<char> {
    let start = skip_ws(text, 0);
    if start >= text.len() {
        text
    } else {
        text.subrange(start, word_end(text, start))
    }
}

fn first_word_of(text: &[char]) -> (r: Vec<char>)
    ensures
        r@ == first_word(text@),
{
    proof {
        lemma_skip_ws_bounds(text@, 0);
    }
    let start = skip_whitespace(text, 0);
    if start >= text.len() {
        return copy_range(text, 0, text.len());
    }
    let mut end = start;
    while end < text.len() && !is_whitespace(text[end])
        invariant
            start <= end <= text@.len(),
            word_end(text@, start as int) == word_end(text@, end as int),
        decreases text@.len() - end,
    {
        end = end + 1;
    }
    copy_range(text, start, end)
}

/// The last dotted segment of a name: `name.rsplit('.').next()`.
pub open spec fn last_segment(name: Seq<char>) -> Seq<char> {
    after_last(name, seq!['.'])
}

/// The module that holds a dotted module name, if it has one.
pub open spec fn parent_module(module: Seq<char>) -> Option<Seq<char>> {
    let split = rfind_any(module, seq!['.'], module.len() as int);
    if split >= 0 {
        Some(module.take(split))
    } else {
        None
    }
}

fn parent_module_of(module: &[char]) -> (r: Option<Vec<char>>)
    ensures
        match r {
            Some(parent) => parent_module(module@) == Some(parent@),
            None => parent_module(module@) is None,
        },
{
    let dot = vec!['.'];
    assert(dot@ == seq!['.']);
    proof {
        lemma_rfind_any_bounds(module@, dot@, module@.len() as int);
    }
    match last_position_of_any(module, dot.as_slice()) {
        Some(split) => {
            let parent = copy_range(module, 0, split);
            assert(parent@ == module@.take(split as int));
            Some(parent)
        },
        None => None,
    }
}

fn last_segment_of(name: &[char]) -> (r: Vec<char>)
    ensures
        r@ == last_segment(name@),
{
    let dot = vec!['.'];
    assert(dot@ == seq!['.']);
    suffix_after_last(name, dot.as_slice())
}

/// A call whose callee's last segment names a known Specification evaluator, combinator or
/// registration.
pub open spec fn is_consumer_name(name: Seq<char>) -> bool {
    ||| name == "evaluate"@
    ||| name == "is_satisfied_by"@
    ||| name == "is_satisfied"@
    ||| name == "matches"@
    ||| name == "and"@
    ||| name == "or"@
    ||| name == "not"@
    ||| name == "all_of"@
    ||| name == "any_of"@
    ||| name == "compose"@
    ||| name == "register"@
    ||| name == "register_factory"@
}

pub open spec fn is_specification_consumer_text(function: Seq<char>) -> bool {
    is_consumer_name(last_segment(function))
}

/// Whether calling `function` passes its arguments to a Specification consumer.
pub fn is_specification_consumer(function: &str) -> (r: bool)
    ensures
        r == is_specification_consumer_text(function@),
{
    let chars = to_chars(function);
    let name = last_segment_of(chars.as_slice());
    let name = name.as_slice();
    is_text(name, "evaluate") || is_text(name, "is_satisfied_by") || is_text(name, "is_satisfied")
        || is_text(name, "matches") || is_text(name, "and") || is_text(name, "or") || is_text(
        name,
        "not",
    ) || is_text(name, "all_of") || is_text(name, "any_of") || is_text(name, "compose")
        || is_text(name, "register") || is_text(name, "register_factory")
}

/// A builtin or library call that looks a name up at run time.
pub open spec fn is_dynamic_lookup_name(name: Seq<char>) -> bool {
    ||| name == "getattr"@
    ||| name == "globals"@
    ||| name == "locals"@
    ||| name == "eval"@
    ||| name == "exec"@
    ||| name == "__import__"@
    ||| name == "import_module"@
}

fn dynamic_lookup_name(function: &[char]) -> (r: bool)
    ensures
        r == is_dynamic_lookup_name(last_segment(function@)),
{
    let name = last_segment_of(function);
    let name = name.as_slice();
    is_text(name, "getattr") || is_text(name, "globals") || is_text(name, "locals") || is_text(
        name,
        "eval",
    ) || is_text(name, "exec") || is_text(name, "__import__") || is_text(name, "import_module")
}

// ------------------------------------------------------------------ declarations by module

/// The module of each definition's source path.
pub open spec fn definition_modules(definitions: Seq<DefinitionView>) -> Seq<Seq<char>> {
    definitions.map_values(|d: DefinitionView| module_name(d.path))
}

/// Definition `i` is a Python class declaration named `name` in module `module`.
pub open spec fn declares(definitions: Seq<DefinitionView>, i: int, module: Seq<char>, name: Seq<char>) -> bool {
    &&& 0 <= i < definitions.len()
    &&& definitions[i].language == Language::Python
    &&& definitions[i].kind == "declaration"@
    &&& module_name(definitions[i].path) == module
    &&& definitions[i].name == name
}

/// Some Python declaration named `name` lives in `module`.
pub open spec fn has_declaration(definitions: Seq<DefinitionView>, module: Seq<char>, name: Seq<char>) -> bool {
    exists|i: int| declares(definitions, i, module, name)
}

/// Some Python declaration, in any module, is named `name`.
pub open spec fn declaration_named(definitions: Seq<DefinitionView>, name: Seq<char>) -> bool {
    exists|i: int|
        0 <= i < definitions.len() && (#[trigger] definitions[i]).language == Language::Python
            && definitions[i].kind == "declaration"@ && definitions[i].name == name
}

/// How many Python declarations named `name` live in `module`.
pub open spec fn symbol_count(definitions: Seq<DefinitionView>, module: Seq<char>, name: Seq<char>) -> nat
    decreases definitions.len(),
{
    if definitions.len() == 0 {
        0
    } else {
        symbol_count(definitions.drop_last(), module, name) + if declares(
            definitions,
            definitions.len() - 1,
            module,
            name,
        ) {
            1nat
        } else {
            0nat
        }
    }
}

/// The table of declarations that the analysis consults.
struct Declarations<'a> {
    definitions: &'a Vec<SpecificationDefinition>,
    modules: Vec<Vec<char>>,
}

impl<'a> Declarations<'a> {
    spec fn wf(&self) -> bool {
        pieces_view(self.modules@) == definition_modules(self.definitions.deep_view())
    }

    spec fn view_of(&self) -> Seq<DefinitionView> {
        self.definitions.deep_view()
    }

    fn new(definitions: &'a Vec<SpecificationDefinition>) -> (r: Declarations<'a>)
        ensures
            r.wf(),
            r.definitions == definitions,
    {
        let mut modules: Vec<Vec<char>> = Vec::new();
        let mut i: usize = 0;
        while i < definitions.len()
            invariant
                i <= definitions@.len(),
                pieces_view(modules@) =~= definition_modules(definitions.deep_view()).take(
                    i as int,
                ),
            decreases definitions@.len() - i,
        {
            let ghost before = pieces_view(modules@);
            let module = module_of(definitions[i].path.as_str());
            modules.push(module);
            assert(pieces_view(modules@) =~= before.push(module_name(definitions@[i as int].path@)));
            i = i + 1;
        }
        assert(definition_modules(definitions.deep_view()).take(i as int) =~= definition_modules(
            definitions.deep_view(),
        ));
        Declarations { definitions, modules }
    }

    fn declares_at(&self, i: usize, module: &[char], name: &[char]) -> (r: bool)
        requires
            self.wf(),
        ensures
            r == declares(self.view_of(), i as int, module@, name@),
    {
        if i >= self.definitions.len() {
            return false;
        }
        let definition = &self.definitions[i];
        assert(pieces_view(self.modules@).len() == self.modules@.len());
        assert(definition_modules(self.view_of()).len() == self.definitions@.len());
        assert(pieces_view(self.modules@)[i as int] == self.modules@[i as int]@);
        definition.language == Language::Python && is_text(
            to_chars(definition.kind.as_str()).as_slice(),
            "declaration",
        ) && equal_chars(self.modules[i].as_slice(), module) && equal_chars(
            to_chars(definition.name.as_str()).as_slice(),
            name,
        )
    }

    fn has_declaration(&self, module: &[char], name: &[char]) -> (r: bool)
        requires
            self.wf(),
        ensures
            r == has_declaration(self.view_of(), module@, name@),
    {
        let mut i: usize = 0;
        while i < self.definitions.len()
            invariant
                self.wf(),
                i <= self.definitions@.len(),
                forall|j: int| 0 <= j < i ==> !declares(self.view_of(), j, module@, name@),
            decreases self.definitions@.len() - i,
        {
            if self.declares_at(i, module, name) {
                return true;
            }
            i = i + 1;
        }
        false
    }

    fn declaration_named(&self, name: &[char]) -> (r: bool)
        requires
            self.wf(),
        ensures
            r == declaration_named(self.view_of(), name@),
    {
        let mut i: usize = 0;
        while i < self.definitions.len()
            invariant
                i <= self.definitions@.len(),
                forall|j: int|
                    0 <= j < i ==> !((#[trigger] self.view_of()[j]).language == Language::Python
                        && self.view_of()[j].kind == "declaration"@ && self.view_of()[j].name
                        == name@),
            decreases self.definitions@.len() - i,
        {
            let definition = &self.definitions[i];
            assert(self.view_of()[i as int] == definition@);
            if definition.language == Language::Python && is_text(
                to_chars(definition.kind.as_str()).as_slice(),
                "declaration",
            ) && equal_chars(to_chars(definition.name.as_str()).as_slice(), name) {
                return true;
            }
            i = i + 1;
        }
        false
    }

    fn symbol_count(&self, module: &[char], name: &[char]) -> (r: usize)
        requires
            self.wf(),
        ensures
            r == symbol_count(self.view_of(), module@, name@),
    {
        let ghost all = self.view_of();
        let mut count: usize = 0;
        let mut i: usize = 0;
        while i < self.definitions.len()
            invariant
                self.wf(),
                all == self.view_of(),
                i <= self.definitions@.len(),
                count <= i,
                count == symbol_count(all.take(i as int), module@, name@),
            decreases self.definitions@.len() - i,
        {
            let ghost prefix = all.take(i + 1);
            assert(prefix.drop_last() =~= all.take(i as int));
            assert(declares(prefix, i as int, module@, name@) == declares(all, i as int, module@, name@));
            if self.declares_at(i, module, name) {
                count = count + 1;
            }
            i = i + 1;
        }
        assert(all.take(i as int) =~= all);
        count
    }
}

// ------------------------------------------------------------------ names that imports bind

fn has_kind(node: &SyntaxNode, kind: &str) -> (r: bool)
    ensures
        r == (node.kind@ == kind@),
{
    is_text(to_chars(node.kind.as_str()).as_slice(), kind)
}

/// The text of the child held under `field`, or nothing.
pub open spec fn field_text(node: SyntaxNode, field: Seq<char>) -> Seq<char> {
    match field_child(node, field) {
        Some(child) => child.text@,
        None => Seq::empty(),
    }
}

fn field_text_of(node: &SyntaxNode, field: &str) -> (r: Vec<char>)
    ensures
        r@ == field_text(*node, field@),
{
    match field_position(node, field) {
        Some(i) => to_chars(node.children[i].text.as_str()),
        None => Vec::new(),
    }
}

/// The imported symbol and the local name of an entry of a `from` import.
pub open spec fn imported_names(entry: SyntaxNode) -> (Seq<char>, Seq<char>) {
    if entry.kind@ == "aliased_import"@ {
        (field_text(entry, "name"@), field_text(entry, "alias"@))
    } else {
        (entry.text@, last_segment(entry.text@))
    }
}

/// The local name under which an entry of `from module import ...` makes `target` available:
/// `*` for a wildcard over the target's module, the alias of an entry that imports it.
pub open spec fn entry_bound_name(
    entry: SyntaxNode,
    module: Seq<char>,
    definitions: Seq<DefinitionView>,
    target: int,
) -> Option<Seq<char>> {
    if entry.kind@ == "wildcard_import"@ {
        if declares(definitions, target, module, definitions[target].name) {
            Some("*"@)
        } else {
            None
        }
    } else {
        let (symbol, local) = imported_names(entry);
        if symbol.len() > 0 && local.len() > 0 && declares(definitions, target, module, symbol) {
            Some(local)
        } else {
            None
        }
    }
}

pub open spec fn option_names(name: Option<Seq<char>>) -> Seq<Seq<char>> {
    match name {
        Some(name) => seq![name],
        None => Seq::empty(),
    }
}

pub open spec fn entries_bound_names(
    node: SyntaxNode,
    module: Seq<char>,
    definitions: Seq<DefinitionView>,
    target: int,
    i: int,
) -> Seq<Seq<char>>
    decreases node.children@.len() - i,
{
    if 0 <= i < node.children@.len() {
        (if node.children@[i].field.deep_view() == Some("name"@) {
            option_names(entry_bound_name(node.children@[i], module, definitions, target))
        } else {
            Seq::empty()
        }) + entries_bound_names(node, module, definitions, target, i + 1)
    } else {
        Seq::empty()
    }
}

/// The names that one `from` import statement binds to `target`.
pub open spec fn statement_bound_names(
    node: SyntaxNode,
    source_path: Seq<char>,
    definitions: Seq<DefinitionView>,
    target: int,
) -> Seq<Seq<char>> {
    if node.kind@ == "import_from_statement"@ {
        match field_child(node, "module_name"@) {
            Some(module) => entries_bound_names(
                node,
                resolve_import_module(source_path, module.text@),
                definitions,
                target,
                0,
            ),
            None => Seq::empty(),
        }
    } else {
        Seq::empty()
    }
}

/// The names that the `from` imports of a file bind to `target`, in document order.
pub open spec fn tree_bound_names(
    node: SyntaxNode,
    source_path: Seq<char>,
    definitions: Seq<DefinitionView>,
    target: int,
) -> Seq<Seq<char>>
    decreases node,
{
    statement_bound_names(node, source_path, definitions, target) + child_bound_names(
        node,
        source_path,
        definitions,
        target,
        0,
    )
}

pub open spec fn child_bound_names(
    node: SyntaxNode,
    source_path: Seq<char>,
    definitions: Seq<DefinitionView>,
    target: int,
    i: int,
) -> Seq<Seq<char>>
    decreases node, node.children@.len() - i,
{
    if 0 <= i < node.children@.len() {
        let child = node.children@[i];
        (if child.named {
            tree_bound_names(child, source_path, definitions, target)
        } else {
            Seq::empty()
        }) + child_bound_names(node, source_path, definitions, target, i + 1)
    } else {
        Seq::empty()
    }
}

fn entry_name(
    table: &Declarations,
    entry: &SyntaxNode,
    module: &[char],
    target: usize,
) -> (r: Option<Vec<char>>)
    requires
        table.wf(),
        target < table.definitions@.len(),
    ensures
        match r {
            Some(name) => entry_bound_name(*entry, module@, table.view_of(), target as int) == Some(
                name@,
            ),
            None => entry_bound_name(*entry, module@, table.view_of(), target as int) is None,
        },
{
    if has_kind(entry, "wildcard_import") {
        let name = to_chars(table.definitions[target].name.as_str());
        if table.declares_at(target, module, name.as_slice()) {
            return Some(to_chars("*"));
        }
        return None;
    }
    let (symbol, local) = if has_kind(entry, "aliased_import") {
        (field_text_of(entry, "name"), field_text_of(entry, "alias"))
    } else {
        let text = to_chars(entry.text.as_str());
        let local = last_segment_of(text.as_slice());
        (text, local)
    };
    if symbol.len() > 0 && local.len() > 0 && table.declares_at(target, module, symbol.as_slice()) {
        Some(local)
    } else {
        None
    }
}

fn is_name_field(child: &SyntaxNode) -> (r: bool)
    ensures
        r == (child.field.deep_view() == Some("name"@)),
{
    match &child.field {
        Some(field) => is_text(to_chars(field.as_str()).as_slice(), "name"),
        None => false,
    }
}

fn statement_names(
    table: &Declarations,
    node: &SyntaxNode,
    source_path: &str,
    target: usize,
    names: &mut Vec<Vec<char>>,
)
    requires
        table.wf(),
        target < table.definitions@.len(),
    ensures
        pieces_view(final(names)@) == pieces_view(old(names)@) + statement_bound_names(
            *node,
            source_path@,
            table.view_of(),
            target as int,
        ),
{
    if !has_kind(node, "import_from_statement") {
        assert(pieces_view(names@) =~= pieces_view(names@) + Seq::<Seq<char>>::empty());
        return;
    }
    let position = field_position(node, "module_name");
    let m = match position {
        Some(m) => m,
        None => {
            assert(pieces_view(names@) =~= pieces_view(names@) + Seq::<Seq<char>>::empty());
            return;
        },
    };
    let module = resolve_import(source_path, node.children[m].text.as_str());
    let ghost start = pieces_view(names@);
    let ghost all = entries_bound_names(*node, module@, table.view_of(), target as int, 0);
    let mut i: usize = 0;
    while i < node.children.len()
        invariant
            table.wf(),
            target < table.definitions@.len(),
            i <= node.children@.len(),
            start + all == pieces_view(names@) + entries_bound_names(
                *node,
                module@,
                table.view_of(),
                target as int,
                i as int,
            ),
        decreases node.children@.len() - i,
    {
        let child = &node.children[i];
        let ghost before = pieces_view(names@);
        let ghost rest = entries_bound_names(*node, module@, table.view_of(), target as int, i + 1);
        if is_name_field(child) {
            match entry_name(table, child, module.as_slice(), target) {
                Some(name) => {
                    names.push(name);
                    assert(pieces_view(names@) =~= before.push(name@));
                    assert(before + (seq![name@] + rest) =~= pieces_view(names@) + rest);
                },
                None => {
                    assert(before + (Seq::<Seq<char>>::empty() + rest) =~= before + rest);
                },
            }
        } else {
            assert(before + (Seq::<Seq<char>>::empty() + rest) =~= before + rest);
        }
        i = i + 1;
    }
    assert(pieces_view(names@) + Seq::<Seq<char>>::empty() =~= pieces_view(names@));
}

fn collect_bound_names(
    table: &Declarations,
    node: &SyntaxNode,
    source_path: &str,
    target: usize,
    names: &mut Vec<Vec<char>>,
)
    requires
        table.wf(),
        target < table.definitions@.len(),
    ensures
        pieces_view(final(names)@) == pieces_view(old(names)@) + tree_bound_names(
            *node,
            source_path@,
            table.view_of(),
            target as int,
        ),
    decreases node,
{
    let ghost start = pieces_view(names@);
    statement_names(table, node, source_path, target, names);
    let ghost after_own = pieces_view(names@);
    let mut i: usize = 0;
    while i < node.children.len()
        invariant
            table.wf(),
            target < table.definitions@.len(),
            i <= node.children@.len(),
            after_own + child_bound_names(*node, source_path@, table.view_of(), target as int, 0)
                == pieces_view(names@) + child_bound_names(
                *node,
                source_path@,
                table.view_of(),
                target as int,
                i as int,
            ),
        decreases node.children@.len() - i,
    {
        let child = &node.children[i];
        let ghost before = pieces_view(names@);
        let ghost rest = child_bound_names(*node, source_path@, table.view_of(), target as int, i + 1);
        if child.named {
            collect_bound_names(table, child, source_path, target, names);
            let ghost part = tree_bound_names(*child, source_path@, table.view_of(), target as int);
            assert(before + (part + rest) =~= pieces_view(names@) + rest);
        } else {
            assert(before + (Seq::<Seq<char>>::empty() + rest) =~= before + rest);
        }
        i = i + 1;
    }
    assert(pieces_view(names@) + Seq::<Seq<char>>::empty() =~= pieces_view(names@));
    assert(start + (statement_bound_names(*node, source_path@, table.view_of(), target as int)
        + child_bound_names(*node, source_path@, table.view_of(), target as int, 0))
        =~= pieces_view(names@));
}

// ------------------------------------------------------------------ runtime references

pub open spec fn node_of(node: Option<&SyntaxNode>) -> Option<SyntaxNode> {
    match node {
        Some(node) => Some(*node),
        None => None,
    }
}

/// The node at `index` below `parent` is its type, return type or type parameters.
pub open spec fn is_type_position(parent: Option<SyntaxNode>, index: int) -> bool {
    match parent {
        Some(parent) => field_index(parent, "type"@, 0) == index || field_index(
            parent,
            "return_type"@,
            0,
        ) == index || field_index(parent, "type_parameters"@, 0) == index,
        None => false,
    }
}

/// A reference that uses the Specification at run time: the callee of a call, or an argument
/// of a call to a Specification consumer.
pub open spec fn is_runtime_use(
    parent: Option<SyntaxNode>,
    index: int,
    grandparent: Option<SyntaxNode>,
    parent_index: int,
) -> bool {
    match parent {
        Some(parent) => (parent.kind@ == "call"@ && field_index(parent, "function"@, 0) == index)
            || (parent.kind@ == "argument_list"@ && match grandparent {
            Some(call) => call.kind@ == "call"@ && field_index(call, "arguments"@, 0)
                == parent_index && match field_child(call, "function"@) {
                Some(function) => is_specification_consumer_text(function.text@),
                None => false,
            },
            None => false,
        }),
        None => false,
    }
}

/// Passing the target to a Specification consumer (an evaluator such as `evaluate`, a
/// combinator such as `all_of`, or a registration such as `register`), by its bare name or a
/// dotted path, is a resolved runtime use of it: an identifier bound to the target, given as
/// an argument of such a call, is a use and not an unresolved reference.
pub proof fn lemma_consumer_argument_is_a_resolved_use(
    node: SyntaxNode,
    arguments: SyntaxNode,
    index: int,
    call: SyntaxNode,
    arguments_index: int,
    function: SyntaxNode,
    prefix: Seq<char>,
    name: Seq<char>,
    bound: Seq<Seq<char>>,
)
    requires
        node.kind@ == "identifier"@,
        bound.contains(node.text@),
        arguments.kind@ == "argument_list"@,
        call.kind@ == "call"@,
        field_index(call, "arguments"@, 0) == arguments_index,
        field_child(call, "function"@) == Some(function),
        function.text@ == prefix + name,
        name == "evaluate"@ || name == "is_satisfied_by"@ || name == "is_satisfied"@ || name
            == "matches"@ || name == "and"@ || name == "or"@ || name == "not"@ || name
            == "all_of"@ || name == "any_of"@ || name == "compose"@ || name == "register"@
            || name == "register_factory"@,
        prefix.len() == 0 || prefix.last() == '.',
    ensures
        identifier_use(node, Some(arguments), index, Some(call), arguments_index, false, false, bound)
            == (true, false),
{
    reveal_strlit("evaluate");
    reveal_strlit("is_satisfied_by");
    reveal_strlit("is_satisfied");
    reveal_strlit("matches");
    reveal_strlit("and");
    reveal_strlit("or");
    reveal_strlit("not");
    reveal_strlit("all_of");
    reveal_strlit("any_of");
    reveal_strlit("compose");
    reveal_strlit("register");
    reveal_strlit("register_factory");
    reveal_strlit("argument_list");
    reveal_strlit("class_definition");
    reveal_strlit("call");
    assert("argument_list"@.len() == 13 && "class_definition"@.len() == 16 && "call"@.len() == 4);
    assert(arguments.kind@ != "class_definition"@);
    assert(arguments.kind@ != "call"@);
    assert forall|k: int| 0 <= k < name.len() implies !seq!['.'].contains(#[trigger] name[k]) by {
        assert(name[k] != '.');
    }
    if prefix.len() > 0 {
        assert(seq!['.'].contains(prefix.last())) by {
            assert(seq!['.'][0] == '.');
        }
    }
    lemma_after_last_suffix(prefix, name, seq!['.']);
    assert(last_segment(function.text@) == name);
    assert(is_specification_consumer_text(function.text@));
}

/// What one node says of the target: a resolved use, or a reference whose use is not
/// resolved. `bound` holds the local names under which the target is reachable.
pub open spec fn identifier_use(
    node: SyntaxNode,
    parent: Option<SyntaxNode>,
    index: int,
    grandparent: Option<SyntaxNode>,
    parent_index: int,
    is_type: bool,
    is_import: bool,
    bound: Seq<Seq<char>>,
) -> (bool, bool) {
    if node.kind@ == "identifier"@ && !is_type && !is_import {
        let declaration_name = match parent {
            Some(parent) => parent.kind@ == "class_definition"@ && field_index(parent, "name"@, 0)
                == index,
            None => false,
        };
        if !declaration_name && bound.contains(node.text@) {
            let used = is_runtime_use(parent, index, grandparent, parent_index);
            (used, !used)
        } else {
            (false, false)
        }
    } else {
        (false, false)
    }
}

/// The resolved and unresolved references to the target in `node` and the named nodes below
/// it; outside type annotations and import statements only. A wildcard import of the target
/// makes every inspected file's references unresolved.
pub open spec fn reference_uses(
    node: SyntaxNode,
    parent: Option<SyntaxNode>,
    index: int,
    grandparent: Option<SyntaxNode>,
    parent_index: int,
    in_type: bool,
    in_import: bool,
    bound: Seq<Seq<char>>,
) -> (bool, bool)
    decreases node,
{
    let is_type = in_type || node.kind@ == "type"@ || is_type_position(parent, index);
    let is_import = in_import || node.kind@ == "import_from_statement"@ || node.kind@
        == "import_statement"@;
    let here = identifier_use(
        node,
        parent,
        index,
        grandparent,
        parent_index,
        is_type,
        is_import,
        bound,
    );
    let below = child_uses(node, 0, parent, index, is_type, is_import, bound);
    (here.0 || below.0, bound.contains("*"@) || here.1 || below.1)
}

pub open spec fn child_uses(
    node: SyntaxNode,
    i: int,
    parent: Option<SyntaxNode>,
    index: int,
    is_type: bool,
    is_import: bool,
    bound: Seq<Seq<char>>,
) -> (bool, bool)
    decreases node, node.children@.len() - i,
{
    if 0 <= i < node.children@.len() {
        let child = node.children@[i];
        let first = if child.named {
            reference_uses(child, Some(node), i, parent, index, is_type, is_import, bound)
        } else {
            (false, false)
        };
        let rest = child_uses(node, i + 1, parent, index, is_type, is_import, bound);
        (first.0 || rest.0, first.1 || rest.1)
    } else {
        (false, false)
    }
}

fn name_bound(bound: &Vec<Vec<char>>, name: &[char]) -> (r: bool)
    ensures
        r == pieces_view(bound@).contains(name@),
{
    let ghost all = pieces_view(bound@);
    let mut i: usize = 0;
    while i < bound.len()
        invariant
            i <= bound@.len(),
            all == pieces_view(bound@),
            all.len() == bound@.len(),
            forall|j: int| 0 <= j < i ==> all[j] != name@,
        decreases bound@.len() - i,
    {
        assert(all[i as int] == bound@[i as int]@);
        if equal_chars(bound[i].as_slice(), name) {
            return true;
        }
        i = i + 1;
    }
    false
}

fn at_field(parent: &SyntaxNode, field: &str, index: usize) -> (r: bool)
    ensures
        r == (field_index(*parent, field@, 0) == index),
{
    match field_position(parent, field) {
        Some(i) => i == index,
        None => false,
    }
}

fn runtime_use(
    parent: Option<&SyntaxNode>,
    index: usize,
    grandparent: Option<&SyntaxNode>,
    parent_index: usize,
) -> (r: bool)
    ensures
        r == is_runtime_use(node_of(parent), index as int, node_of(grandparent), parent_index as int),
{
    match parent {
        Some(parent) => {
            if has_kind(parent, "call") && at_field(parent, "function", index) {
                return true;
            }
            if !has_kind(parent, "argument_list") {
                return false;
            }
            match grandparent {
                Some(call) => {
                    if !has_kind(call, "call") || !at_field(call, "arguments", parent_index) {
                        return false;
                    }
                    match field_position(call, "function") {
                        Some(f) => is_specification_consumer(call.children[f].text.as_str()),
                        None => false,
                    }
                },
                None => false,
            }
        },
        None => false,
    }
}

fn inspect(
    node: &SyntaxNode,
    parent: Option<&SyntaxNode>,
    index: usize,
    grandparent: Option<&SyntaxNode>,
    parent_index: usize,
    in_type: bool,
    in_import: bool,
    bound: &Vec<Vec<char>>,
) -> (r: (bool, bool))
    ensures
        r == reference_uses(
            *node,
            node_of(parent),
            index as int,
            node_of(grandparent),
            parent_index as int,
            in_type,
            in_import,
            pieces_view(bound@),
        ),
    decreases node,
{
    let type_position = match parent {
        Some(p) => at_field(p, "type", index) || at_field(p, "return_type", index) || at_field(
            p,
            "type_parameters",
            index,
        ),
        None => false,
    };
    let is_type = in_type || has_kind(node, "type") || type_position;
    let is_import = in_import || has_kind(node, "import_from_statement") || has_kind(
        node,
        "import_statement",
    );
    let mut direct = false;
    let mut ambiguous = name_bound(bound, to_chars("*").as_slice());
    if has_kind(node, "identifier") && !is_type && !is_import {
        let declaration_name = match parent {
            Some(p) => has_kind(p, "class_definition") && at_field(p, "name", index),
            None => false,
        };
        if !declaration_name && name_bound(bound, to_chars(node.text.as_str()).as_slice()) {
            if runtime_use(parent, index, grandparent, parent_index) {
                direct = true;
            } else {
                ambiguous = true;
            }
        }
    }
    let ghost here = identifier_use(
        *node,
        node_of(parent),
        index as int,
        node_of(grandparent),
        parent_index as int,
        is_type,
        is_import,
        pieces_view(bound@),
    );
    let ghost star = pieces_view(bound@).contains("*"@);
    assert(direct == here.0 && ambiguous == (star || here.1));
    let mut i: usize = 0;
    while i < node.children.len()
        invariant
            i <= node.children@.len(),
            ({
                let all = child_uses(
                    *node,
                    0,
                    node_of(parent),
                    index as int,
                    is_type,
                    is_import,
                    pieces_view(bound@),
                );
                let rest = child_uses(
                    *node,
                    i as int,
                    node_of(parent),
                    index as int,
                    is_type,
                    is_import,
                    pieces_view(bound@),
                );
                &&& (here.0 || all.0) == (direct || rest.0)
                &&& (star || here.1 || all.1) == (ambiguous || rest.1)
            }),
        decreases node.children@.len() - i,
    {
        let child = &node.children[i];
        if child.named {
            let (d, a) = inspect(child, Some(node), i, parent, index, is_type, is_import, bound);
            direct = direct || d;
            ambiguous = ambiguous || a;
        }
        i = i + 1;
    }
    (direct, ambiguous)
}

// ------------------------------------------------------------------ unresolved imports

pub open spec fn import_names_match(node: SyntaxNode, target_module: Seq<char>, i: int) -> bool
    decreases node.children@.len() - i,
{
    if 0 <= i < node.children@.len() {
        let child = node.children@[i];
        (child.named && (first_word(child.text@) == target_module || starts_with(
            target_module,
            first_word(child.text@).push('.'),
        ))) || import_names_match(node, target_module, i + 1)
    } else {
        false
    }
}

/// An entry of `from resolved import ...` that may name the target without resolving to it.
pub open spec fn from_entry_matches(
    entry: SyntaxNode,
    resolved: Seq<char>,
    definitions: Seq<DefinitionView>,
    target: DefinitionView,
) -> bool {
    let target_module = module_name(target.path);
    let name = if entry.kind@ == "aliased_import"@ {
        field_text(entry, "name"@)
    } else {
        entry.text@
    };
    ||| entry.kind@ == "wildcard_import"@
    ||| name == target.name && !has_declaration(definitions, resolved, name) && declaration_named(
        definitions,
        name,
    )
    ||| last_segment(target_module) == name && parent_module(target_module) == Some(resolved)
}

pub open spec fn from_entries_match(
    node: SyntaxNode,
    resolved: Seq<char>,
    definitions: Seq<DefinitionView>,
    target: DefinitionView,
    i: int,
) -> bool
    decreases node.children@.len() - i,
{
    if 0 <= i < node.children@.len() {
        (node.children@[i].field.deep_view() == Some("name"@) && from_entry_matches(
            node.children@[i],
            resolved,
            definitions,
            target,
        )) || from_entries_match(node, resolved, definitions, target, i + 1)
    } else {
        false
    }
}

/// An import statement that may bring the target in without a resolved binding.
pub open spec fn import_may_match(
    node: SyntaxNode,
    source_path: Seq<char>,
    definitions: Seq<DefinitionView>,
    target: DefinitionView,
) -> bool {
    ||| node.kind@ == "wildcard_import"@
    ||| node.kind@ == "import_statement"@ && import_names_match(node, module_name(target.path), 0)
    ||| node.kind@ == "import_from_statement"@ && match field_child(node, "module_name"@) {
        Some(module) => from_entries_match(
            node,
            resolve_import_module(source_path, module.text@),
            definitions,
            target,
            0,
        ),
        None => false,
    }
}

/// Some import in `node` or below it may refer to the target without resolving to it.
pub open spec fn unresolved_may_match(
    node: SyntaxNode,
    source_path: Seq<char>,
    definitions: Seq<DefinitionView>,
    target: DefinitionView,
) -> bool
    decreases node,
{
    import_may_match(node, source_path, definitions, target) || child_may_match(
        node,
        source_path,
        definitions,
        target,
        0,
    )
}

pub open spec fn child_may_match(
    node: SyntaxNode,
    source_path: Seq<char>,
    definitions: Seq<DefinitionView>,
    target: DefinitionView,
    i: int,
) -> bool
    decreases node, node.children@.len() - i,
{
    if 0 <= i < node.children@.len() {
        (node.children@[i].named && unresolved_may_match(
            node.children@[i],
            source_path,
            definitions,
            target,
        )) || child_may_match(node, source_path, definitions, target, i + 1)
    } else {
        false
    }
}

fn statement_names_match(node: &SyntaxNode, target_module: &[char]) -> (r: bool)
    ensures
        r == import_names_match(*node, target_module@, 0),
{
    let mut i: usize = 0;
    while i < node.children.len()
        invariant
            i <= node.children@.len(),
            import_names_match(*node, target_module@, 0) == import_names_match(
                *node,
                target_module@,
                i as int,
            ),
        decreases node.children@.len() - i,
    {
        let child = &node.children[i];
        if child.named {
            let word = first_word_of(to_chars(child.text.as_str()).as_slice());
            let mut dotted = copy_range(word.as_slice(), 0, word.len());
            dotted.push('.');
            assert(dotted@ =~= first_word(child.text@).push('.'));
            if equal_chars(word.as_slice(), target_module) || starts_with_exec(
                target_module,
                dotted.as_slice(),
            ) {
                return true;
            }
        }
        i = i + 1;
    }
    false
}

fn entry_matches(
    table: &Declarations,
    entry: &SyntaxNode,
    resolved: &[char],
    target: &SpecificationDefinition,
    target_module: &[char],
) -> (r: bool)
    requires
        table.wf(),
        target_module@ == module_name(target.path@),
    ensures
        r == from_entry_matches(*entry, resolved@, table.view_of(), target@),
{
    if has_kind(entry, "wildcard_import") {
        return true;
    }
    let name = if has_kind(entry, "aliased_import") {
        field_text_of(entry, "name")
    } else {
        to_chars(entry.text.as_str())
    };
    if equal_chars(name.as_slice(), to_chars(target.name.as_str()).as_slice())
        && !table.has_declaration(resolved, name.as_slice()) && table.declaration_named(
        name.as_slice(),
    ) {
        return true;
    }
    let last = last_segment_of(target_module);
    if !equal_chars(last.as_slice(), name.as_slice()) {
        return false;
    }
    match parent_module_of(target_module) {
        Some(parent) => equal_chars(parent.as_slice(), resolved),
        None => false,
    }
}

fn import_matches(
    table: &Declarations,
    node: &SyntaxNode,
    source_path: &str,
    target: &SpecificationDefinition,
    target_module: &[char],
) -> (r: bool)
    requires
        table.wf(),
        target_module@ == module_name(target.path@),
    ensures
        r == import_may_match(*node, source_path@, table.view_of(), target@),
{
    if has_kind(node, "wildcard_import") {
        return true;
    }
    if has_kind(node, "import_statement") && statement_names_match(node, target_module) {
        return true;
    }
    if !has_kind(node, "import_from_statement") {
        return false;
    }
    let m = match field_position(node, "module_name") {
        Some(m) => m,
        None => {
            return false;
        },
    };
    let resolved = resolve_import(source_path, node.children[m].text.as_str());
    let mut i: usize = 0;
    while i < node.children.len()
        invariant
            table.wf(),
            target_module@ == module_name(target.path@),
            i <= node.children@.len(),
            node.kind@ == "import_from_statement"@,
            m < node.children@.len(),
            field_index(*node, "module_name"@, 0) == m,
            resolved@ == resolve_import_module(source_path@, node.children@[m as int].text@),
            from_entries_match(*node, resolved@, table.view_of(), target@, 0)
                == from_entries_match(*node, resolved@, table.view_of(), target@, i as int),
        decreases node.children@.len() - i,
    {
        let child = &node.children[i];
        if is_name_field(child) && entry_matches(
            table,
            child,
            resolved.as_slice(),
            target,
            target_module,
        ) {
            return true;
        }
        i = i + 1;
    }
    false
}

fn unresolved_import(
    table: &Declarations,
    node: &SyntaxNode,
    source_path: &str,
    target: &SpecificationDefinition,
    target_module: &[char],
) -> (r: bool)
    requires
        table.wf(),
        target_module@ == module_name(target.path@),
    ensures
        r == unresolved_may_match(*node, source_path@, table.view_of(), target@),
    decreases node,
{
    if import_matches(table, node, source_path, target, target_module) {
        return true;
    }
    let mut i: usize = 0;
    while i < node.children.len()
        invariant
            table.wf(),
            target_module@ == module_name(target.path@),
            i <= node.children@.len(),
            child_may_match(*node, source_path@, table.view_of(), target@, 0) == child_may_match(
                *node,
                source_path@,
                table.view_of(),
                target@,
                i as int,
            ),
        decreases node.children@.len() - i,
    {
        let child = &node.children[i];
        if child.named && unresolved_import(table, child, source_path, target, target_module) {
            return true;
        }
        i = i + 1;
    }
    false
}

// ------------------------------------------------------------------ dynamic lookups and exports

pub open spec fn is_dynamic_call(node: SyntaxNode) -> bool {
    node.kind@ == "call"@ && match field_child(node, "function"@) {
        Some(function) => is_dynamic_lookup_name(last_segment(function.text@)),
        None => false,
    }
}

/// A call in `node` or below it that looks names up at run time.
pub open spec fn has_dynamic_lookup(node: SyntaxNode) -> bool
    decreases node,
{
    is_dynamic_call(node) || child_dynamic_lookup(node, 0)
}

pub open spec fn child_dynamic_lookup(node: SyntaxNode, i: int) -> bool
    decreases node, node.children@.len() - i,
{
    if 0 <= i < node.children@.len() {
        (node.children@[i].named && has_dynamic_lookup(node.children@[i])) || child_dynamic_lookup(
            node,
            i + 1,
        )
    } else {
        false
    }
}

fn contains_dynamic_lookup(node: &SyntaxNode) -> (r: bool)
    ensures
        r == has_dynamic_lookup(*node),
    decreases node,
{
    if has_kind(node, "call") {
        match field_position(node, "function") {
            Some(f) => {
                if dynamic_lookup_name(to_chars(node.children[f].text.as_str()).as_slice()) {
                    return true;
                }
            },
            None => {},
        }
    }
    let mut i: usize = 0;
    while i < node.children.len()
        invariant
            i <= node.children@.len(),
            child_dynamic_lookup(*node, 0) == child_dynamic_lookup(*node, i as int),
        decreases node.children@.len() - i,
    {
        let child = &node.children[i];
        if child.named && contains_dynamic_lookup(child) {
            return true;
        }
        i = i + 1;
    }
    false
}

// ------------------------------------------------------------------ classification

/// A Python source of the measured set.
#[derive(Clone, Debug)]
pub struct PythonSource {
    pub path: String,
    pub source: String,
}

pub struct PythonSourceView {
    pub path: Seq<char>,
    pub source: Seq<char>,
}

impl View for PythonSource {
    type V = PythonSourceView;

    open spec fn view(&self) -> PythonSourceView {
        PythonSourceView { path: self.path@, source: self.source@ }
    }
}

impl DeepView for PythonSource {
    type V = PythonSourceView;

    open spec fn deep_view(&self) -> PythonSourceView {
        self@
    }
}

/// A Python source together with its syntax tree.
pub struct ParsedModule {
    pub path: String,
    pub source: String,
    pub root: SyntaxNode,
}

pub struct ModuleView {
    pub path: Seq<char>,
    pub source: Seq<char>,
    pub root: SyntaxNode,
}

impl View for ParsedModule {
    type V = ModuleView;

    open spec fn view(&self) -> ModuleView {
        ModuleView { path: self.path@, source: self.source@, root: self.root }
    }
}

impl DeepView for ParsedModule {
    type V = ModuleView;

    open spec fn deep_view(&self) -> ModuleView {
        self@
    }
}

/// The first source, from `i` on, of the definition's module or of the package that holds it.
pub open spec fn export_source(
    modules: Seq<ModuleView>,
    module: Seq<char>,
    package: Option<Seq<char>>,
    i: int,
) -> Option<ModuleView>
    decreases modules.len() - i,
{
    if 0 <= i < modules.len() {
        let candidate = modules[i];
        if module_name(candidate.path) == module || package == Some(module_name(candidate.path)) {
            Some(candidate)
        } else {
            export_source(modules, module, package, i + 1)
        }
    } else {
        None
    }
}

/// The declaration's module, or its package, lists its name in `__all__`.
pub open spec fn exported_from_package(definition: DefinitionView, modules: Seq<ModuleView>) -> bool {
    let module = module_name(definition.path);
    match export_source(modules, module, parent_module(module), 0) {
        Some(found) => crate::text::contains_sub(found.source, "__all__"@) && (
        crate::text::contains_sub(found.source, seq!['"'] + definition.name + seq!['"'])
            || crate::text::contains_sub(found.source, seq!['\''] + definition.name + seq!['\''])),
        None => false,
    }
}

/// The local names under which `target` is reachable in a module: its own name in its own
/// module, and the names that the module's imports bind to it.
pub open spec fn module_bound_names(
    module: ModuleView,
    definitions: Seq<DefinitionView>,
    target: int,
) -> Seq<Seq<char>> {
    (if declares(definitions, target, module_name(module.path), definitions[target].name) {
        seq![definitions[target].name]
    } else {
        Seq::empty()
    }) + tree_bound_names(module.root, module.path, definitions, target)
}

/// Over all modules: whether a resolved use reaches `target`, and whether an unresolved
/// reference or import may reach it.
pub open spec fn modules_uses(
    modules: Seq<ModuleView>,
    definitions: Seq<DefinitionView>,
    target: int,
    definition: DefinitionView,
) -> (bool, bool)
    decreases modules.len(),
{
    if modules.len() == 0 {
        (false, false)
    } else {
        let earlier = modules_uses(modules.drop_last(), definitions, target, definition);
        let module = modules.last();
        let unresolved = unresolved_may_match(module.root, module.path, definitions, definition);
        let bound = module_bound_names(module, definitions, target);
        let found = if bound.len() > 0 {
            reference_uses(module.root, None, 0, None, 0, false, false, bound)
        } else {
            (false, false)
        };
        (earlier.0 || found.0, earlier.1 || unresolved || found.1)
    }
}

/// Some module looks names up at run time.
pub open spec fn modules_dynamic(modules: Seq<ModuleView>) -> bool
    decreases modules.len(),
{
    if modules.len() == 0 {
        false
    } else {
        modules_dynamic(modules.drop_last()) || has_dynamic_lookup(modules.last().root)
    }
}

/// `a` is a Python definition at the place of `b`.
pub open spec fn same_definition(a: DefinitionView, b: DefinitionView) -> bool {
    a.language == Language::Python && a.path == b.path && a.name == b.name && a.kind == b.kind
        && a.line == b.line && a.column == b.column
}

/// The first index from `i` of a Python definition at the place of `definition`, or -1.
pub open spec fn first_match(definitions: Seq<DefinitionView>, definition: DefinitionView, i: int) -> int
    decreases definitions.len() - i,
{
    if 0 <= i < definitions.len() {
        if same_definition(definitions[i], definition) {
            i
        } else {
            first_match(definitions, definition, i + 1)
        }
    } else {
        -1
    }
}

/// The status of a named Python declaration, with its reason.
pub open spec fn python_liveness(
    definitions: Seq<DefinitionView>,
    modules: Seq<ModuleView>,
    failed: Seq<Seq<char>>,
    index: int,
    closed_world: bool,
) -> (SpecificationLivenessStatus, Seq<char>) {
    let definition = definitions[index];
    let module = module_name(definition.path);
    let target = first_match(definitions, definition, 0);
    if failed.contains(definition.path) {
        (SpecificationLivenessStatus::Unknown, "the declaration's source has a parse error"@)
    } else if symbol_count(definitions, module, definition.name) != 1 {
        (SpecificationLivenessStatus::Unknown, "the Python symbol is ambiguous within its module"@)
    } else {
        let uses = modules_uses(modules, definitions, target, definition);
        if uses.0 {
            (SpecificationLivenessStatus::Live, "resolved constructor or Specification consumer use"@)
        } else if uses.1 || modules_dynamic(modules) {
            (
                SpecificationLivenessStatus::Unknown,
                "an unresolved runtime reference or dynamic lookup may use this declaration"@,
            )
        } else if !starts_with(definition.name, "_"@) || exported_from_package(
            definition,
            modules,
        ) {
            (
                SpecificationLivenessStatus::Unknown,
                "the declaration is importable or exported outside its source module"@,
            )
        } else if !closed_world {
            (
                SpecificationLivenessStatus::Unknown,
                "the manifest does not declare a closed-world source boundary"@,
            )
        } else {
            (
                SpecificationLivenessStatus::Dead,
                "private declaration has no resolved runtime use in the closed source set"@,
            )
        }
    }
}

/// The status of definition `index`: a factory site is live, a definition in a language
/// without an analyzer or in an incomplete scan is unknown, and a Python declaration is
/// classified by its uses.
pub open spec fn liveness_of(
    definitions: Seq<DefinitionView>,
    modules: Seq<ModuleView>,
    failed: Seq<Seq<char>>,
    closed_world: bool,
    incomplete: bool,
    index: int,
) -> LivenessView {
    let definition = definitions[index];
    let (status, evidence) = if definition.kind == "factory"@ {
        (SpecificationLivenessStatus::Live, "factory site is counted by source presence"@)
    } else if definition.language != Language::Python {
        (
            SpecificationLivenessStatus::Unknown,
            "liveness analysis is not implemented for this language"@,
        )
    } else if incomplete {
        (SpecificationLivenessStatus::Unknown, "source parse or role assignment is incomplete"@)
    } else {
        python_liveness(definitions, modules, failed, index, closed_world)
    };
    LivenessView {
        language: definition.language,
        path: definition.path,
        name: definition.name,
        kind: definition.kind,
        line: definition.line,
        column: definition.column,
        status,
        evidence,
    }
}

pub open spec fn liveness_results(
    definitions: Seq<DefinitionView>,
    modules: Seq<ModuleView>,
    failed: Seq<Seq<char>>,
    closed_world: bool,
    incomplete: bool,
) -> Seq<LivenessView> {
    Seq::new(
        definitions.len(),
        |i: int| liveness_of(definitions, modules, failed, closed_world, incomplete, i),
    )
}

fn quoted(name: &[char], quote: char) -> (r: Vec<char>)
    ensures
        r@ == seq![quote] + name@ + seq![quote],
{
    let mut r: Vec<char> = Vec::new();
    r.push(quote);
    append_chars(&mut r, name);
    r.push(quote);
    assert(r@ =~= seq![quote] + name@ + seq![quote]);
    r
}

fn holds_text(source: &[char], pattern: &[char]) -> (r: bool)
    ensures
        r == crate::text::contains_sub(source@, pattern@),
{
    crate::text::find_sub_exec(source, pattern, 0).is_some()
}

fn exported(definition: &SpecificationDefinition, modules: &Vec<ParsedModule>) -> (r: bool)
    ensures
        r == exported_from_package(definition@, modules.deep_view()),
{
    let ghost all = modules.deep_view();
    let module = module_of(definition.path.as_str());
    let package = parent_module_of(module.as_slice());
    let ghost package_view = parent_module(module@);
    let mut i: usize = 0;
    while i < modules.len()
        invariant
            i <= modules@.len(),
            all == modules.deep_view(),
            module@ == module_name(definition.path@),
            package_view == parent_module(module@),
            match package {
                Some(p) => package_view == Some(p@),
                None => package_view is None,
            },
            export_source(all, module@, package_view, 0) == export_source(
                all,
                module@,
                package_view,
                i as int,
            ),
        decreases modules@.len() - i,
    {
        let candidate = &modules[i];
        assert(all[i as int] == candidate@);
        let candidate_module = module_of(candidate.path.as_str());
        let in_package = match &package {
            Some(p) => equal_chars(p.as_slice(), candidate_module.as_slice()),
            None => false,
        };
        if equal_chars(candidate_module.as_slice(), module.as_slice()) || in_package {
            let source = to_chars(candidate.source.as_str());
            if !holds_text(source.as_slice(), to_chars("__all__").as_slice()) {
                return false;
            }
            let name = to_chars(definition.name.as_str());
            let double = quoted(name.as_slice(), '"');
            let single = quoted(name.as_slice(), '\'');
            return holds_text(source.as_slice(), double.as_slice()) || holds_text(
                source.as_slice(),
                single.as_slice(),
            );
        }
        i = i + 1;
    }
    false
}

fn module_bound(table: &Declarations, module: &ParsedModule, target: usize) -> (r: Vec<Vec<char>>)
    requires
        table.wf(),
        target < table.definitions@.len(),
    ensures
        pieces_view(r@) == module_bound_names(module@, table.view_of(), target as int),
{
    let mut names: Vec<Vec<char>> = Vec::new();
    let own_module = module_of(module.path.as_str());
    let name = to_chars(table.definitions[target].name.as_str());
    if table.declares_at(target, own_module.as_slice(), name.as_slice()) {
        names.push(name);
        assert(pieces_view(names@) =~= seq![table.view_of()[target as int].name]);
    } else {
        assert(pieces_view(names@) =~= Seq::<Seq<char>>::empty());
    }
    collect_bound_names(table, &module.root, module.path.as_str(), target, &mut names);
    names
}

fn modules_use(
    table: &Declarations,
    modules: &Vec<ParsedModule>,
    target: usize,
    definition: &SpecificationDefinition,
) -> (r: (bool, bool))
    requires
        table.wf(),
        target < table.definitions@.len(),
    ensures
        r == modules_uses(modules.deep_view(), table.view_of(), target as int, definition@),
{
    let ghost all = modules.deep_view();
    let target_module = module_of(definition.path.as_str());
    let mut direct = false;
    let mut ambiguous = false;
    let mut i: usize = 0;
    while i < modules.len()
        invariant
            table.wf(),
            target < table.definitions@.len(),
            i <= modules@.len(),
            all == modules.deep_view(),
            target_module@ == module_name(definition.path@),
            (direct, ambiguous) == modules_uses(
                all.take(i as int),
                table.view_of(),
                target as int,
                definition@,
            ),
        decreases modules@.len() - i,
    {
        let module = &modules[i];
        let ghost prefix = all.take(i + 1);
        assert(prefix.drop_last() =~= all.take(i as int));
        assert(prefix.last() == module@);
        let unresolved = unresolved_import(
            table,
            &module.root,
            module.path.as_str(),
            definition,
            target_module.as_slice(),
        );
        let names = module_bound(table, module, target);
        let (d, a) = if names.len() > 0 {
            inspect(&module.root, None, 0, None, 0, false, false, &names)
        } else {
            (false, false)
        };
        direct = direct || d;
        ambiguous = ambiguous || unresolved || a;
        i = i + 1;
    }
    assert(all.take(i as int) =~= all);
    (direct, ambiguous)
}

fn any_dynamic_lookup(modules: &Vec<ParsedModule>) -> (r: bool)
    ensures
        r == modules_dynamic(modules.deep_view()),
{
    let ghost all = modules.deep_view();
    let mut found = false;
    let mut i: usize = 0;
    while i < modules.len()
        invariant
            i <= modules@.len(),
            all == modules.deep_view(),
            found == modules_dynamic(all.take(i as int)),
        decreases modules@.len() - i,
    {
        let ghost prefix = all.take(i + 1);
        assert(prefix.drop_last() =~= all.take(i as int));
        assert(prefix.last() == modules@[i as int]@);
        found = found || contains_dynamic_lookup(&modules[i].root);
        i = i + 1;
    }
    assert(all.take(i as int) =~= all);
    found
}

fn path_failed(failed: &Vec<String>, path: &str) -> (r: bool)
    ensures
        r == failed.deep_view().contains(path@),
{
    let mut i: usize = 0;
    while i < failed.len()
        invariant
            i <= failed@.len(),
            forall|j: int| 0 <= j < i ==> failed.deep_view()[j] != path@,
        decreases failed@.len() - i,
    {
        if crate::text::text_equal(failed[i].as_str(), path) {
            assert(failed.deep_view()[i as int] == path@);
            return true;
        }
        i = i + 1;
    }
    false
}

fn same_place(a: &SpecificationDefinition, b: &SpecificationDefinition) -> (r: bool)
    ensures
        r == same_definition(a@, b@),
{
    a.language == Language::Python && crate::text::text_equal(a.path.as_str(), b.path.as_str())
        && crate::text::text_equal(a.name.as_str(), b.name.as_str()) && crate::text::text_equal(
        a.kind.as_str(),
        b.kind.as_str(),
    ) && a.line == b.line && a.column == b.column
}

fn first_match_of(definitions: &Vec<SpecificationDefinition>, index: usize) -> (r: usize)
    requires
        index < definitions@.len(),
        definitions@[index as int].language == Language::Python,
    ensures
        r as int == first_match(definitions.deep_view(), definitions@[index as int]@, 0),
        r <= index,
{
    let ghost all = definitions.deep_view();
    let ghost definition = all[index as int];
    assert(same_definition(all[index as int], definition));
    let mut i: usize = 0;
    while i < index
        invariant
            i <= index < all.len(),
            all == definitions.deep_view(),
            definition == all[index as int],
            same_definition(all[index as int], definition),
            first_match(all, definition, 0) == first_match(all, definition, i as int),
        decreases index - i,
    {
        if same_place(&definitions[i], &definitions[index]) {
            return i;
        }
        i = i + 1;
    }
    i
}

fn python_status(
    table: &Declarations,
    modules: &Vec<ParsedModule>,
    failed: &Vec<String>,
    dynamic: bool,
    index: usize,
    closed_world: bool,
) -> (r: (SpecificationLivenessStatus, String))
    requires
        table.wf(),
        index < table.definitions@.len(),
        table.definitions@[index as int].language == Language::Python,
        dynamic == modules_dynamic(modules.deep_view()),
    ensures
        (r.0, r.1@) == python_liveness(
            table.view_of(),
            modules.deep_view(),
            failed.deep_view(),
            index as int,
            closed_world,
        ),
{
    let definition = &table.definitions[index];
    assert(table.view_of()[index as int] == definition@);
    if path_failed(failed, definition.path.as_str()) {
        return (
            SpecificationLivenessStatus::Unknown,
            "the declaration's source has a parse error".to_owned(),
        );
    }
    let module = module_of(definition.path.as_str());
    let name = to_chars(definition.name.as_str());
    if table.symbol_count(module.as_slice(), name.as_slice()) != 1 {
        return (
            SpecificationLivenessStatus::Unknown,
            "the Python symbol is ambiguous within its module".to_owned(),
        );
    }
    let target = first_match_of(table.definitions, index);
    let (direct, ambiguous) = modules_use(table, modules, target, definition);
    if direct {
        return (
            SpecificationLivenessStatus::Live,
            "resolved constructor or Specification consumer use".to_owned(),
        );
    }
    if ambiguous || dynamic {
        return (
            SpecificationLivenessStatus::Unknown,
            "an unresolved runtime reference or dynamic lookup may use this declaration".to_owned(),
        );
    }
    let private = starts_with_exec(name.as_slice(), to_chars("_").as_slice());
    if !private || exported(definition, modules) {
        return (
            SpecificationLivenessStatus::Unknown,
            "the declaration is importable or exported outside its source module".to_owned(),
        );
    }
    if !closed_world {
        return (
            SpecificationLivenessStatus::Unknown,
            "the manifest does not declare a closed-world source boundary".to_owned(),
        );
    }
    (
        SpecificationLivenessStatus::Dead,
        "private declaration has no resolved runtime use in the closed source set".to_owned(),
    )
}

/// Classifies each definition from already parsed Python modules: `failed` lists the paths
/// of the sources that did not parse cleanly. `closed_world` states that the measured set is
/// the whole owning package; `incomplete` that the scan had parse or scope issues.
pub fn classify_parsed(
    definitions: &Vec<SpecificationDefinition>,
    modules: &Vec<ParsedModule>,
    failed: &Vec<String>,
    closed_world: bool,
    incomplete: bool,
) -> (r: Vec<SpecificationLiveness>)
    ensures
        r.deep_view() == liveness_results(
            definitions.deep_view(),
            modules.deep_view(),
            failed.deep_view(),
            closed_world,
            incomplete,
        ),
{
    let table = Declarations::new(definitions);
    let dynamic = any_dynamic_lookup(modules);
    let ghost expected = liveness_results(
        definitions.deep_view(),
        modules.deep_view(),
        failed.deep_view(),
        closed_world,
        incomplete,
    );
    let mut results: Vec<SpecificationLiveness> = Vec::new();
    let mut i: usize = 0;
    while i < definitions.len()
        invariant
            table.wf(),
            table.definitions == definitions,
            i <= definitions@.len(),
            dynamic == modules_dynamic(modules.deep_view()),
            expected == liveness_results(
                definitions.deep_view(),
                modules.deep_view(),
                failed.deep_view(),
                closed_world,
                incomplete,
            ),
            results.deep_view() =~= expected.take(i as int),
        decreases definitions@.len() - i,
    {
        let definition = &definitions[i];
        assert(definitions.deep_view()[i as int] == definition@);
        let (status, evidence) = if is_text(to_chars(definition.kind.as_str()).as_slice(), "factory") {
            (SpecificationLivenessStatus::Live, "factory site is counted by source presence".to_owned())
        } else if definition.language != Language::Python {
            (
                SpecificationLivenessStatus::Unknown,
                "liveness analysis is not implemented for this language".to_owned(),
            )
        } else if incomplete {
            (
                SpecificationLivenessStatus::Unknown,
                "source parse or role assignment is incomplete".to_owned(),
            )
        } else {
            python_status(&table, modules, failed, dynamic, i, closed_world)
        };
        let ghost before = results.deep_view();
        results.push(
            SpecificationLiveness {
                language: definition.language,
                path: definition.path.clone(),
                name: definition.name.clone(),
                kind: definition.kind.clone(),
                line: definition.line,
                column: definition.column,
                status,
                evidence,
            },
        );
        assert(results.deep_view() =~= before.push(expected[i as int]));
        i = i + 1;
    }
    results
}

/// The modules of the first `n` sources whose parse gave a tree.
pub open spec fn parsed_modules(sources: Seq<PythonSourceView>, outcomes: Seq<ParseOutcome>, n: int) -> Seq<
    ModuleView,
>
    decreases n,
{
    if n <= 0 {
        Seq::empty()
    } else {
        let earlier = parsed_modules(sources, outcomes, n - 1);
        match outcomes[n - 1] {
            ParseOutcome::Parsed(tree) => earlier.push(
                ModuleView { path: sources[n - 1].path, source: sources[n - 1].source, root: tree.root },
            ),
            _ => earlier,
        }
    }
}

/// The paths of the first `n` sources whose parse gave no tree or a tree with an error.
pub open spec fn failed_paths(sources: Seq<PythonSourceView>, outcomes: Seq<ParseOutcome>, n: int) -> Seq<
    Seq<char>,
>
    decreases n,
{
    if n <= 0 {
        Seq::empty()
    } else {
        let earlier = failed_paths(sources, outcomes, n - 1);
        match outcomes[n - 1] {
            ParseOutcome::Parsed(tree) => if tree.has_error {
                earlier.push(sources[n - 1].path)
            } else {
                earlier
            },
            _ => earlier.push(sources[n - 1].path),
        }
    }
}

/// What parsing each Python source gives.
pub open spec fn python_outcomes(sources: Seq<PythonSourceView>) -> Seq<ParseOutcome> {
    Seq::new(sources.len(), |i: int| parse_outcome(Language::Python, sources[i].source))
}

/// Classifies the liveness of each definition, parsing the Python sources with Tree-sitter's
/// Python grammar: the result is what `classify_parsed` gives for the trees of the sources.
/// A source that yields no tree, or a tree with an error, counts as failed.
pub fn classify(
    definitions: &Vec<SpecificationDefinition>,
    python_sources: &Vec<PythonSource>,
    closed_world: bool,
    incomplete: bool,
) -> (r: Vec<SpecificationLiveness>)
    ensures
        r.deep_view() == liveness_results(
            definitions.deep_view(),
            parsed_modules(
                python_sources.deep_view(),
                python_outcomes(python_sources.deep_view()),
                python_sources@.len() as int,
            ),
            failed_paths(
                python_sources.deep_view(),
                python_outcomes(python_sources.deep_view()),
                python_sources@.len() as int,
            ),
            closed_world,
            incomplete,
        ),
{
    let ghost sources = python_sources.deep_view();
    let ghost mut outcomes: Seq<ParseOutcome> = Seq::empty();
    let mut modules: Vec<ParsedModule> = Vec::new();
    let mut failed: Vec<String> = Vec::new();
    let mut i: usize = 0;
    while i < python_sources.len()
        invariant
            i <= python_sources@.len(),
            sources == python_sources.deep_view(),
            outcomes =~= python_outcomes(sources).take(i as int),
            modules.deep_view() == parsed_modules(sources, outcomes, i as int),
            failed.deep_view() == failed_paths(sources, outcomes, i as int),
        decreases python_sources@.len() - i,
    {
        let source = &python_sources[i];
        assert(sources[i as int] == source@);
        let outcome = parse_source(Language::Python, source.source.as_str());
        let ghost parsed = outcome;
        let ghost before_outcomes = outcomes;
        proof {
            outcomes = outcomes.push(parsed);
            assert forall|n: int| 0 <= n <= i implies parsed_modules(sources, outcomes, n)
                == parsed_modules(sources, before_outcomes, n) && failed_paths(
                sources,
                outcomes,
                n,
            ) == failed_paths(sources, before_outcomes, n) by {
                lemma_outcome_prefix(sources, before_outcomes, outcomes, n);
            }
        }
        let ghost before_modules = modules.deep_view();
        let ghost before_failed = failed.deep_view();
        match outcome {
            ParseOutcome::Parsed(tree) => {
                if tree.has_error {
                    failed.push(source.path.clone());
                    assert(failed.deep_view() =~= before_failed.push(source@.path));
                }
                modules.push(
                    ParsedModule {
                        path: source.path.clone(),
                        source: source.source.clone(),
                        root: tree.root,
                    },
                );
                assert(modules.deep_view() =~= before_modules.push(
                    ModuleView { path: source@.path, source: source@.source, root: tree.root },
                ));
            },
            _ => {
                failed.push(source.path.clone());
                assert(failed.deep_view() =~= before_failed.push(source@.path));
            },
        }
        i = i + 1;
    }
    proof {
        assert(outcomes =~= python_outcomes(sources));
    }
    classify_parsed(definitions, &modules, &failed, closed_world, incomplete)
}

proof fn lemma_outcome_prefix(
    sources: Seq<PythonSourceView>,
    shorter: Seq<ParseOutcome>,
    longer: Seq<ParseOutcome>,
    n: int,
)
    requires
        0 <= n <= shorter.len() <= longer.len(),
        forall|k: int| 0 <= k < shorter.len() ==> shorter[k] == longer[k],
    ensures
        parsed_modules(sources, longer, n) == parsed_modules(sources, shorter, n),
        failed_paths(sources, longer, n) == failed_paths(sources, shorter, n),
    decreases n,
{
    if n > 0 {
        lemma_outcome_prefix(sources, shorter, longer, n - 1);
    }
}

// ------------------------------------------------------------------ the classification rules

/// The classification rules, for any parsed modules: a factory site is live;
/// any other definition outside Python, or in an incomplete scan, is unknown; and a dead
/// declaration is a private (`_`-prefixed) Python declaration of a closed world, in a source
/// that parsed cleanly, with no resolved use, no unresolved reference and no dynamic lookup.
pub proof fn lemma_liveness_rules(
    definitions: Seq<DefinitionView>,
    modules: Seq<ModuleView>,
    failed: Seq<Seq<char>>,
    closed_world: bool,
    incomplete: bool,
    index: int,
)
    requires
        0 <= index < definitions.len(),
    ensures
        ({
            let result = liveness_results(definitions, modules, failed, closed_world, incomplete)[index];
            let definition = definitions[index];
            &&& result.language == definition.language && result.path == definition.path
                && result.name == definition.name && result.kind == definition.kind
                && result.line == definition.line && result.column == definition.column
            &&& definition.kind == "factory"@ ==> result.status == SpecificationLivenessStatus::Live
            &&& definition.kind != "factory"@ && (definition.language != Language::Python
                || incomplete) ==> result.status == SpecificationLivenessStatus::Unknown
            &&& result.status == SpecificationLivenessStatus::Dead ==> {
                &&& closed_world
                &&& !incomplete
                &&& definition.language == Language::Python
                &&& starts_with(definition.name, "_"@)
                &&& !failed.contains(definition.path)
                &&& !modules_dynamic(modules)
                &&& !exported_from_package(definition, modules)
                &&& symbol_count(definitions, module_name(definition.path), definition.name) == 1
                &&& !modules_uses(
                    modules,
                    definitions,
                    first_match(definitions, definition, 0),
                    definition,
                ).0
                &&& !modules_uses(
                    modules,
                    definitions,
                    first_match(definitions, definition, 0),
                    definition,
                ).1
            }
        }),
{
}

/// Every definition gets exactly one result, in the order of the definitions.
pub proof fn lemma_one_result_per_definition(
    definitions: Seq<DefinitionView>,
    modules: Seq<ModuleView>,
    failed: Seq<Seq<char>>,
    closed_world: bool,
    incomplete: bool,
)
    ensures
        liveness_results(definitions, modules, failed, closed_world, incomplete).len()
            == definitions.len(),
{
}

} // verus!
