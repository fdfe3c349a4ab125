//! What holds of every expansion: which definitions are in reach where, and
//! what a tree without definitions expands to.

use crate::error::ErrorView;
use crate::expanded::scope::{bound_args, expand_scope, followed_by, Macros, Variables};
use crate::expanded::{ExpandedNodeView, ExpandedTagView};
use crate::lexer::StringLiteralView;
use crate::parser::{AstNodeView, TagView, VarView};
use vstd::prelude::*;

verus! {

/// Whether the nodes are text and tags only, at every level.
pub open spec fn is_plain(ast: Seq<AstNodeView>) -> bool
    decreases ast, 1int,
{
    forall|i: int| 0 <= i < ast.len() ==> node_is_plain(#[trigger] ast[i])
}

/// Whether the node is text, or a tag whose contents are text and tags only.
pub open spec fn node_is_plain(node: AstNodeView) -> bool
    decreases node, 0int,
{
    match node {
        AstNodeView::Text(_) => true,
        AstNodeView::Tag(tag) => is_plain(tag.contents),
        _ => false,
    }
}

/// The nodes of a tree of text and tags, as nodes of an expanded tree.
pub open spec fn as_expanded(ast: Seq<AstNodeView>) -> Seq<ExpandedNodeView>
    decreases ast, 1int,
{
    Seq::new(
        ast.len(),
        |i: int|
            if 0 <= i < ast.len() {
                node_as_expanded(ast[i])
            } else {
                arbitrary()
            },
    )
}

/// A node of text or a tag, as a node of an expanded tree.
pub open spec fn node_as_expanded(node: AstNodeView) -> ExpandedNodeView
    decreases node, 0int,
{
    match node {
        AstNodeView::Tag(tag) => ExpandedNodeView::Tag(
            ExpandedTagView {
                name: tag.name,
                attributes: tag.attributes,
                contents: as_expanded(tag.contents),
            },
        ),
        AstNodeView::Text(text) => ExpandedNodeView::Text(text),
        _ => arbitrary(),
    }
}

/// The nodes of an expanded tree, as nodes of a tree.
pub open spec fn as_ast(nodes: Seq<ExpandedNodeView>) -> Seq<AstNodeView>
    decreases nodes, 1int,
{
    Seq::new(
        nodes.len(),
        |i: int|
            if 0 <= i < nodes.len() {
                node_as_ast(nodes[i])
            } else {
                arbitrary()
            },
    )
}

/// A node of an expanded tree, as a node of a tree.
pub open spec fn node_as_ast(node: ExpandedNodeView) -> AstNodeView
    decreases node, 0int,
{
    match node {
        ExpandedNodeView::Tag(tag) => AstNodeView::Tag(
            TagView {
                name: tag.name,
                attributes: tag.attributes,
                contents: as_ast(tag.contents),
            },
        ),
        ExpandedNodeView::Text(text) => AstNodeView::Text(text),
    }
}

/// The expansion of a tree of text and tags is the tree itself, whatever is
/// in reach.
pub proof fn lemma_plain_tree_expands_to_itself(
    ast: Seq<AstNodeView>,
    vars: Variables,
    macrs: Macros,
    depth: nat,
)
    requires
        is_plain(ast),
    ensures
        expand_scope(ast, vars, macrs, depth) == Ok::<Seq<ExpandedNodeView>, ErrorView>(
            as_expanded(ast),
        ),
    decreases ast,
{
    if ast.len() > 0 {
        let rest = ast.subrange(1, ast.len() as int);
        assert(node_is_plain(ast[0]));
        assert forall|i: int| 0 <= i < rest.len() implies node_is_plain(#[trigger] rest[i]) by {
            assert(rest[i] == ast[i + 1]);
        }
        lemma_plain_tree_expands_to_itself(rest, vars, macrs, depth);
        match ast[0] {
            AstNodeView::Tag(tag) => {
                lemma_plain_tree_expands_to_itself(tag.contents, vars, macrs, depth);
            },
            _ => {},
        }
        assert(seq![node_as_expanded(ast[0])] + as_expanded(rest) =~= as_expanded(ast));
    } else {
        assert(as_expanded(ast) =~= Seq::empty());
    }
}

/// An expanded tree, read as a tree, is a tree of text and tags, and what it
/// holds as an expanded tree is the expanded tree.
pub proof fn lemma_expanded_tree_is_plain(nodes: Seq<ExpandedNodeView>)
    ensures
        is_plain(as_ast(nodes)),
        as_expanded(as_ast(nodes)) == nodes,
    decreases nodes,
{
    assert forall|i: int| 0 <= i < nodes.len() implies node_is_plain(#[trigger] as_ast(nodes)[i])
        && node_as_expanded(as_ast(nodes)[i]) == nodes[i] by {
        match nodes[i] {
            ExpandedNodeView::Tag(tag) => {
                lemma_expanded_tree_is_plain(tag.contents);
            },
            ExpandedNodeView::Text(_) => {},
        }
    }
    assert(as_expanded(as_ast(nodes)) =~= nodes);
}

/// To expand an expanded tree again changes nothing.
pub proof fn lemma_expansion_is_idempotent(
    nodes: Seq<ExpandedNodeView>,
    vars: Variables,
    macrs: Macros,
    depth: nat,
)
    ensures
        expand_scope(as_ast(nodes), vars, macrs, depth) == Ok::<Seq<ExpandedNodeView>, ErrorView>(
            nodes,
        ),
{
    lemma_expanded_tree_is_plain(nodes);
    lemma_plain_tree_expands_to_itself(as_ast(nodes), vars, macrs, depth);
}


/// What is in reach behind the nodes `ast` of one level, where `vars` and
/// `macrs` are in reach before them: each definition of the level binds its
/// name, a later one in place of an earlier one. What is defined inside a
/// tag, a definition or an invocation does not count.
pub open spec fn reach_after(ast: Seq<AstNodeView>, vars: Variables, macrs: Macros, depth: nat) -> (
    Variables,
    Macros,
)
    decreases ast.len(),
{
    if ast.len() == 0 {
        (vars, macrs)
    } else {
        let rest = ast.subrange(1, ast.len() as int);
        match ast[0] {
            AstNodeView::Var(var) => match expand_scope(var.contents, vars, macrs, depth) {
                Ok(contents) => reach_after(rest, vars.insert(var.name, contents), macrs, depth),
                Err(_) => (vars, macrs),
            },
            AstNodeView::Macr(macr) => reach_after(
                rest,
                vars,
                macrs.insert(macr.name, macr.contents),
                depth,
            ),
            _ => reach_after(rest, vars, macrs, depth),
        }
    }
}

/// Whether none of the nodes `ast` of one level defines the variable
/// `name`.
pub open spec fn defines_no(ast: Seq<AstNodeView>, name: Seq<char>) -> bool {
    forall|i: int| 0 <= i < ast.len() ==> !((#[trigger] ast[i]) matches AstNodeView::Var(var)
        && var.name == name)
}

/// The nodes of one level are expanded from left to right: the expansion of
/// `first` followed by `second` is the expansion of `first`, followed by the
/// expansion of `second` with what is in reach behind `first`.
pub proof fn lemma_expansion_goes_left_to_right(
    first: Seq<AstNodeView>,
    second: Seq<AstNodeView>,
    vars: Variables,
    macrs: Macros,
    depth: nat,
)
    ensures
        expand_scope(first + second, vars, macrs, depth) == (match expand_scope(
            first,
            vars,
            macrs,
            depth,
        ) {
            Ok(nodes) => followed_by(
                nodes,
                expand_scope(
                    second,
                    reach_after(first, vars, macrs, depth).0,
                    reach_after(first, vars, macrs, depth).1,
                    depth,
                ),
            ),
            Err(e) => Err(e),
        }),
    decreases first.len(),
{
    let all = first + second;
    if first.len() == 0 {
        assert(all =~= second);
        match expand_scope(second, vars, macrs, depth) {
            Ok(nodes) => {
                assert(Seq::<ExpandedNodeView>::empty() + nodes =~= nodes);
            },
            Err(_) => {},
        }
    } else {
        let rest = first.subrange(1, first.len() as int);
        assert(all[0] == first[0]);
        assert(all.subrange(1, all.len() as int) =~= rest + second);
        match first[0] {
            AstNodeView::Text(text) => {
                lemma_expansion_goes_left_to_right(rest, second, vars, macrs, depth);
                lemma_followed_twice(
                    seq![ExpandedNodeView::Text(text)],
                    expand_scope(rest, vars, macrs, depth),
                    expand_scope(
                        second,
                        reach_after(rest, vars, macrs, depth).0,
                        reach_after(rest, vars, macrs, depth).1,
                        depth,
                    ),
                );
            },
            AstNodeView::Tag(tag) => {
                lemma_expansion_goes_left_to_right(rest, second, vars, macrs, depth);
                match expand_scope(tag.contents, vars, macrs, depth) {
                    Ok(contents) => {
                        lemma_followed_twice(
                            seq![
                                ExpandedNodeView::Tag(
                                    ExpandedTagView {
                                        name: tag.name,
                                        attributes: tag.attributes,
                                        contents,
                                    },
                                ),
                            ],
                            expand_scope(rest, vars, macrs, depth),
                            expand_scope(
                                second,
                                reach_after(rest, vars, macrs, depth).0,
                                reach_after(rest, vars, macrs, depth).1,
                                depth,
                            ),
                        );
                    },
                    Err(_) => {},
                }
            },
            AstNodeView::Var(var) => {
                match expand_scope(var.contents, vars, macrs, depth) {
                    Ok(contents) => {
                        lemma_expansion_goes_left_to_right(
                            rest,
                            second,
                            vars.insert(var.name, contents),
                            macrs,
                            depth,
                        );
                    },
                    Err(_) => {},
                }
            },
            AstNodeView::AccessVar(line, name) => {
                lemma_expansion_goes_left_to_right(rest, second, vars, macrs, depth);
                if vars.contains_key(name) {
                    lemma_followed_twice(
                        vars[name],
                        expand_scope(rest, vars, macrs, depth),
                        expand_scope(
                            second,
                            reach_after(rest, vars, macrs, depth).0,
                            reach_after(rest, vars, macrs, depth).1,
                            depth,
                        ),
                    );
                }
            },
            AstNodeView::Macr(macr) => {
                lemma_expansion_goes_left_to_right(
                    rest,
                    second,
                    vars,
                    macrs.insert(macr.name, macr.contents),
                    depth,
                );
            },
            AstNodeView::AccessMacr(line, args, name) => {
                lemma_expansion_goes_left_to_right(rest, second, vars, macrs, depth);
                if macrs.contains_key(name) && depth > 0 {
                    match bound_args(args, vars, macrs, Map::empty(), depth) {
                        Ok(bound) => {
                            match expand_scope(macrs[name], bound, macrs, (depth - 1) as nat) {
                                Ok(body) => {
                                    lemma_followed_twice(
                                        body,
                                        expand_scope(rest, vars, macrs, depth),
                                        expand_scope(
                                            second,
                                            reach_after(rest, vars, macrs, depth).0,
                                            reach_after(rest, vars, macrs, depth).1,
                                            depth,
                                        ),
                                    );
                                },
                                Err(_) => {},
                            }
                        },
                        Err(_) => {},
                    }
                }
            },
        }
    }
}

/// Nodes before two results that follow one another.
proof fn lemma_followed_twice(
    head: Seq<ExpandedNodeView>,
    middle: Result<Seq<ExpandedNodeView>, ErrorView>,
    last: Result<Seq<ExpandedNodeView>, ErrorView>,
)
    ensures
        followed_by(
            head,
            match middle {
                Ok(nodes) => followed_by(nodes, last),
                Err(e) => Err(e),
            },
        ) == (match followed_by(head, middle) {
            Ok(nodes) => followed_by(nodes, last),
            Err(e) => Err(e),
        }),
{
    match (middle, last) {
        (Ok(a), Ok(b)) => {
            assert(head + (a + b) =~= (head + a) + b);
        },
        _ => {},
    }
}

/// Behind nodes that do not define a variable, the variable is in reach
/// only if it was in reach before them.
pub proof fn lemma_reach_needs_definition(
    ast: Seq<AstNodeView>,
    name: Seq<char>,
    vars: Variables,
    macrs: Macros,
    depth: nat,
)
    requires
        defines_no(ast, name),
        !vars.contains_key(name),
    ensures
        !reach_after(ast, vars, macrs, depth).0.contains_key(name),
    decreases ast.len(),
{
    if ast.len() > 0 {
        let rest = ast.subrange(1, ast.len() as int);
        assert forall|i: int| 0 <= i < rest.len() implies !((#[trigger] rest[i]) matches AstNodeView::Var(
            var,
        ) && var.name == name) by {
            assert(rest[i] == ast[i + 1]);
        }
        assert(!(ast[0] matches AstNodeView::Var(var) && var.name == name));
        match ast[0] {
            AstNodeView::Var(var) => {
                match expand_scope(var.contents, vars, macrs, depth) {
                    Ok(contents) => {
                        lemma_reach_needs_definition(
                            rest,
                            name,
                            vars.insert(var.name, contents),
                            macrs,
                            depth,
                        );
                    },
                    Err(_) => {},
                }
            },
            AstNodeView::Macr(macr) => {
                lemma_reach_needs_definition(
                    rest,
                    name,
                    vars,
                    macrs.insert(macr.name, macr.contents),
                    depth,
                );
            },
            _ => {
                lemma_reach_needs_definition(rest, name, vars, macrs, depth);
            },
        }
    }
}

/// The use of a variable before its definition fails.
///
/// Where the variable `name` is not in reach before the nodes `before`,
/// none of them defines it and their expansion does not fail, its use behind
/// them is the error of the expansion, whatever follows the use: a definition
/// there comes too late, and so does one inside a tag of `before`.
pub proof fn lemma_use_before_definition_fails(
    before: Seq<AstNodeView>,
    line: usize,
    name: Seq<char>,
    after: Seq<AstNodeView>,
    vars: Variables,
    macrs: Macros,
    depth: nat,
)
    requires
        !vars.contains_key(name),
        defines_no(before, name),
        expand_scope(before, vars, macrs, depth).is_ok(),
    ensures
        expand_scope(
            before + seq![AstNodeView::AccessVar(line, name)] + after,
            vars,
            macrs,
            depth,
        ) == Err::<Seq<ExpandedNodeView>, ErrorView>(ErrorView::UndefinedVar(line, name)),
{
    let tail = seq![AstNodeView::AccessVar(line, name)] + after;
    assert(before + seq![AstNodeView::AccessVar(line, name)] + after =~= before + tail);
    lemma_expansion_goes_left_to_right(before, tail, vars, macrs, depth);
    lemma_reach_needs_definition(before, name, vars, macrs, depth);
    assert(tail[0] == AstNodeView::AccessVar(line, name));
}

/// A variable is not in reach inside its own definition.
pub proof fn lemma_definition_does_not_see_itself(
    line: usize,
    name: Seq<char>,
    vars: Variables,
    macrs: Macros,
    depth: nat,
)
    requires
        !vars.contains_key(name),
    ensures
        expand_scope(
            seq![
                AstNodeView::Var(
                    VarView { name, contents: seq![AstNodeView::AccessVar(line, name)] },
                ),
            ],
            vars,
            macrs,
            depth,
        ) == Err::<Seq<ExpandedNodeView>, ErrorView>(ErrorView::UndefinedVar(line, name)),
{
    reveal_with_fuel(expand_scope, 3);
    let contents = seq![AstNodeView::AccessVar(line, name)];
    assert(contents[0] == AstNodeView::AccessVar(line, name));
    let ast = seq![AstNodeView::Var(VarView { name, contents })];
    assert(ast[0] == AstNodeView::Var(VarView { name, contents }));
}

/// The use of a variable behind its definition succeeds: it gives the
/// expansion of the definition's contents.
///
/// The definition may stand anywhere in `before`; `between` holds the nodes
/// from the definition to the use, none of which defines the variable anew.
pub proof fn lemma_use_after_definition(
    before: Seq<AstNodeView>,
    var: VarView,
    between: Seq<AstNodeView>,
    line: usize,
    vars: Variables,
    macrs: Macros,
    depth: nat,
)
    requires
        defines_no(between, var.name),
        expand_scope(before + seq![AstNodeView::Var(var)] + between, vars, macrs, depth).is_ok(),
    ensures
        ({
            let defined = before + seq![AstNodeView::Var(var)] + between;
            let here = reach_after(before, vars, macrs, depth);
            &&& expand_scope(var.contents, here.0, here.1, depth) matches Ok(contents)
            &&& expand_scope(defined, vars, macrs, depth) matches Ok(nodes)
            &&& expand_scope(
                defined + seq![AstNodeView::AccessVar(line, var.name)],
                vars,
                macrs,
                depth,
            ) == Ok::<Seq<ExpandedNodeView>, ErrorView>(nodes + contents)
        }),
{
    reveal_with_fuel(expand_scope, 3);
    reveal_with_fuel(reach_after, 3);
    let definition = seq![AstNodeView::Var(var)];
    let defined = before + definition + between;
    let access = seq![AstNodeView::AccessVar(line, var.name)];
    let here = reach_after(before, vars, macrs, depth);
    assert(definition[0] == AstNodeView::Var(var));
    assert(definition.subrange(1, 1) =~= Seq::empty());
    assert(access[0] == AstNodeView::AccessVar(line, var.name));
    assert(access.subrange(1, 1) =~= Seq::empty());
    // The definition, then what stands between it and the use.
    assert(defined =~= before + (definition + between));
    lemma_expansion_goes_left_to_right(before, definition + between, vars, macrs, depth);
    lemma_expansion_goes_left_to_right(definition, between, here.0, here.1, depth);
    let contents = expand_scope(var.contents, here.0, here.1, depth)->Ok_0;
    let bound = here.0.insert(var.name, contents);
    lemma_reach_keeps_binding(between, var.name, contents, bound, here.1, depth);
    // The reach behind all of it.
    lemma_reach_goes_left_to_right(before, definition + between, vars, macrs, depth);
    lemma_reach_goes_left_to_right(definition, between, here.0, here.1, depth);
    lemma_expansion_goes_left_to_right(defined, access, vars, macrs, depth);
    assert(contents + Seq::<ExpandedNodeView>::empty() =~= contents);
}

/// Behind nodes that do not define a variable, the variable stands for what
/// it stood for before them.
pub proof fn lemma_reach_keeps_binding(
    ast: Seq<AstNodeView>,
    name: Seq<char>,
    contents: Seq<ExpandedNodeView>,
    vars: Variables,
    macrs: Macros,
    depth: nat,
)
    requires
        defines_no(ast, name),
        vars.contains_key(name),
        vars[name] == contents,
    ensures
        reach_after(ast, vars, macrs, depth).0.contains_key(name),
        reach_after(ast, vars, macrs, depth).0[name] == contents,
    decreases ast.len(),
{
    if ast.len() > 0 {
        let rest = ast.subrange(1, ast.len() as int);
        assert forall|i: int| 0 <= i < rest.len() implies !((#[trigger] rest[i]) matches AstNodeView::Var(
            var,
        ) && var.name == name) by {
            assert(rest[i] == ast[i + 1]);
        }
        assert(!(ast[0] matches AstNodeView::Var(var) && var.name == name));
        match ast[0] {
            AstNodeView::Var(var) => {
                match expand_scope(var.contents, vars, macrs, depth) {
                    Ok(other) => {
                        lemma_reach_keeps_binding(
                            rest,
                            name,
                            contents,
                            vars.insert(var.name, other),
                            macrs,
                            depth,
                        );
                    },
                    Err(_) => {},
                }
            },
            AstNodeView::Macr(macr) => {
                lemma_reach_keeps_binding(
                    rest,
                    name,
                    contents,
                    vars,
                    macrs.insert(macr.name, macr.contents),
                    depth,
                );
            },
            _ => {
                lemma_reach_keeps_binding(rest, name, contents, vars, macrs, depth);
            },
        }
    }
}

/// What is in reach behind `first` followed by `second` is what is in reach
/// behind `second`, taken from behind `first`, where the expansion of `first`
/// does not fail.
pub proof fn lemma_reach_goes_left_to_right(
    first: Seq<AstNodeView>,
    second: Seq<AstNodeView>,
    vars: Variables,
    macrs: Macros,
    depth: nat,
)
    requires
        expand_scope(first, vars, macrs, depth).is_ok(),
    ensures
        reach_after(first + second, vars, macrs, depth) == reach_after(
            second,
            reach_after(first, vars, macrs, depth).0,
            reach_after(first, vars, macrs, depth).1,
            depth,
        ),
    decreases first.len(),
{
    let all = first + second;
    if first.len() == 0 {
        assert(all =~= second);
    } else {
        let rest = first.subrange(1, first.len() as int);
        assert(all[0] == first[0]);
        assert(all.subrange(1, all.len() as int) =~= rest + second);
        match first[0] {
            AstNodeView::Var(var) => {
                match expand_scope(var.contents, vars, macrs, depth) {
                    Ok(contents) => {
                        lemma_reach_goes_left_to_right(
                            rest,
                            second,
                            vars.insert(var.name, contents),
                            macrs,
                            depth,
                        );
                    },
                    Err(_) => {},
                }
            },
            AstNodeView::Macr(macr) => {
                lemma_reach_goes_left_to_right(
                    rest,
                    second,
                    vars,
                    macrs.insert(macr.name, macr.contents),
                    depth,
                );
            },
            _ => {
                lemma_reach_goes_left_to_right(rest, second, vars, macrs, depth);
            },
        }
    }
}

/// A tag is expanded with what is in reach where it stands: the use of a
/// variable inside a tag gives what the variable stands for at the tag.
pub proof fn lemma_use_within_tag(
    tag: TagView,
    line: usize,
    name: Seq<char>,
    vars: Variables,
    macrs: Macros,
    depth: nat,
)
    requires
        tag.contents == seq![AstNodeView::AccessVar(line, name)],
        vars.contains_key(name),
    ensures
        expand_scope(seq![AstNodeView::Tag(tag)], vars, macrs, depth) == Ok::<
            Seq<ExpandedNodeView>,
            ErrorView,
        >(
            seq![
                ExpandedNodeView::Tag(
                    ExpandedTagView {
                        name: tag.name,
                        attributes: tag.attributes,
                        contents: vars[name],
                    },
                ),
            ],
        ),
{
    reveal_with_fuel(expand_scope, 3);
    let ast = seq![AstNodeView::Tag(tag)];
    assert(ast[0] == AstNodeView::Tag(tag));
    assert(ast.subrange(1, 1) =~= Seq::empty());
    assert(tag.contents[0] == AstNodeView::AccessVar(line, name));
    assert(tag.contents.subrange(1, 1) =~= Seq::empty());
    assert(vars[name] + Seq::<ExpandedNodeView>::empty() =~= vars[name]);
    let inner = ExpandedNodeView::Tag(
        ExpandedTagView { name: tag.name, attributes: tag.attributes, contents: vars[name] },
    );
    assert(seq![inner] + Seq::<ExpandedNodeView>::empty() =~= seq![inner]);
}

/// Each use of a variable gives a copy of its own of what the variable
/// stands for: two uses give the nodes twice, one after the other.
pub proof fn lemma_each_use_is_a_copy(
    first_line: usize,
    second_line: usize,
    name: Seq<char>,
    vars: Variables,
    macrs: Macros,
    depth: nat,
)
    requires
        vars.contains_key(name),
    ensures
        expand_scope(
            seq![
                AstNodeView::AccessVar(first_line, name),
                AstNodeView::AccessVar(second_line, name),
            ],
            vars,
            macrs,
            depth,
        ) == Ok::<Seq<ExpandedNodeView>, ErrorView>(vars[name] + vars[name]),
{
    reveal_with_fuel(expand_scope, 4);
    let ast = seq![
        AstNodeView::AccessVar(first_line, name),
        AstNodeView::AccessVar(second_line, name),
    ];
    let rest = ast.subrange(1, 2);
    assert(ast[0] == AstNodeView::AccessVar(first_line, name));
    assert(rest[0] == AstNodeView::AccessVar(second_line, name));
    assert(rest.subrange(1, 1) =~= Seq::empty());
    assert(vars[name] + Seq::<ExpandedNodeView>::empty() =~= vars[name]);
}

/// A tag around some nodes, with the nodes that stand before it and
/// behind it at its level.
pub struct Level {
    pub before: Seq<AstNodeView>,
    pub name: Seq<char>,
    pub attributes: Seq<(Seq<char>, StringLiteralView)>,
    pub behind: Seq<AstNodeView>,
}

/// The nodes `inner` inside tags, one inside the other, the first of
/// `levels` outermost.
pub open spec fn nested(levels: Seq<Level>, inner: Seq<AstNodeView>) -> Seq<AstNodeView>
    decreases levels.len(),
{
    if levels.len() == 0 {
        inner
    } else {
        levels[0].before + seq![
            AstNodeView::Tag(
                TagView {
                    name: levels[0].name,
                    attributes: levels[0].attributes,
                    contents: nested(levels.drop_first(), inner),
                },
            ),
        ] + levels[0].behind
    }
}

/// What is in reach inside the innermost of the tags: what is in reach
/// behind the nodes before each of them, from the outermost inwards.
pub open spec fn reach_inside(levels: Seq<Level>, vars: Variables, macrs: Macros, depth: nat) -> (
    Variables,
    Macros,
)
    decreases levels.len(),
{
    if levels.len() == 0 {
        (vars, macrs)
    } else {
        let here = reach_after(levels[0].before, vars, macrs, depth);
        reach_inside(levels.drop_first(), here.0, here.1, depth)
    }
}

/// Whether the expansion of the nodes before each of the tags does not
/// fail.
pub open spec fn befores_expand(levels: Seq<Level>, vars: Variables, macrs: Macros, depth: nat) -> bool
    decreases levels.len(),
{
    if levels.len() == 0 {
        true
    } else {
        let here = reach_after(levels[0].before, vars, macrs, depth);
        expand_scope(levels[0].before, vars, macrs, depth).is_ok() && befores_expand(
            levels.drop_first(),
            here.0,
            here.1,
            depth,
        )
    }
}

/// Whether none of the nodes before any of the tags defines the variable
/// `name`.
pub open spec fn befores_define_no(levels: Seq<Level>, name: Seq<char>) -> bool {
    forall|i: int| 0 <= i < levels.len() ==> defines_no((#[trigger] levels[i]).before, name)
}

/// Nodes inside tags are expanded with what is in reach where they stand,
/// and an error of their expansion is the error of the whole.
pub proof fn lemma_error_inside_tags(
    levels: Seq<Level>,
    inner: Seq<AstNodeView>,
    e: ErrorView,
    vars: Variables,
    macrs: Macros,
    depth: nat,
)
    requires
        befores_expand(levels, vars, macrs, depth),
        expand_scope(
            inner,
            reach_inside(levels, vars, macrs, depth).0,
            reach_inside(levels, vars, macrs, depth).1,
            depth,
        ) == Err::<Seq<ExpandedNodeView>, ErrorView>(e),
    ensures
        expand_scope(nested(levels, inner), vars, macrs, depth) == Err::<
            Seq<ExpandedNodeView>,
            ErrorView,
        >(e),
    decreases levels.len(),
{
    if levels.len() > 0 {
        let level = levels[0];
        let here = reach_after(level.before, vars, macrs, depth);
        let contents = nested(levels.drop_first(), inner);
        let tag = AstNodeView::Tag(
            TagView { name: level.name, attributes: level.attributes, contents },
        );
        let tail = seq![tag] + level.behind;
        lemma_error_inside_tags(levels.drop_first(), inner, e, here.0, here.1, depth);
        assert(nested(levels, inner) =~= level.before + tail);
        lemma_expansion_goes_left_to_right(level.before, tail, vars, macrs, depth);
        assert(tail[0] == tag);
    }
}

/// Behind the nodes before tags that do not define a variable, the
/// variable is in reach inside the tags only if it was in reach before them,
/// and stands there for what it stood for.
pub proof fn lemma_reach_inside(
    levels: Seq<Level>,
    name: Seq<char>,
    vars: Variables,
    macrs: Macros,
    depth: nat,
)
    requires
        befores_define_no(levels, name),
    ensures
        reach_inside(levels, vars, macrs, depth).0.contains_key(name) == vars.contains_key(name),
        vars.contains_key(name) ==> reach_inside(levels, vars, macrs, depth).0[name] == vars[name],
    decreases levels.len(),
{
    if levels.len() > 0 {
        let here = reach_after(levels[0].before, vars, macrs, depth);
        assert(defines_no(levels[0].before, name));
        if vars.contains_key(name) {
            lemma_reach_keeps_binding(levels[0].before, name, vars[name], vars, macrs, depth);
        } else {
            lemma_reach_needs_definition(levels[0].before, name, vars, macrs, depth);
        }
        assert forall|i: int| 0 <= i < levels.drop_first().len() implies defines_no(
            (#[trigger] levels.drop_first()[i]).before,
            name,
        ) by {
            assert(levels.drop_first()[i] == levels[i + 1]);
        }
        lemma_reach_inside(levels.drop_first(), name, here.0, here.1, depth);
    }
}

/// The use of a variable before its definition fails, however deep in tags
/// the use stands.
///
/// Where the variable `name` is not in reach before the outermost tag, and
/// neither the nodes before the use at its level nor the nodes before any
/// of the tags around it define it, and their expansion does not fail, the
/// use is the error of the expansion: a definition behind the use, or behind
/// one of the tags around it, comes too late.
pub proof fn lemma_use_before_definition_fails_inside_tags(
    levels: Seq<Level>,
    before: Seq<AstNodeView>,
    line: usize,
    name: Seq<char>,
    behind: Seq<AstNodeView>,
    vars: Variables,
    macrs: Macros,
    depth: nat,
)
    requires
        !vars.contains_key(name),
        befores_define_no(levels, name),
        defines_no(before, name),
        befores_expand(levels, vars, macrs, depth),
        expand_scope(
            before,
            reach_inside(levels, vars, macrs, depth).0,
            reach_inside(levels, vars, macrs, depth).1,
            depth,
        ).is_ok(),
    ensures
        expand_scope(
            nested(levels, before + seq![AstNodeView::AccessVar(line, name)] + behind),
            vars,
            macrs,
            depth,
        ) == Err::<Seq<ExpandedNodeView>, ErrorView>(ErrorView::UndefinedVar(line, name)),
{
    let here = reach_inside(levels, vars, macrs, depth);
    lemma_reach_inside(levels, name, vars, macrs, depth);
    lemma_use_before_definition_fails(before, line, name, behind, here.0, here.1, depth);
    lemma_error_inside_tags(
        levels,
        before + seq![AstNodeView::AccessVar(line, name)] + behind,
        ErrorView::UndefinedVar(line, name),
        vars,
        macrs,
        depth,
    );
}

/// The use of a variable behind its definition succeeds, however deep in
/// tags the use stands: where the variable is in reach before the outermost
/// tag and none of the nodes before the tags defines it anew, its use inside
/// the tags gives what it stood for before them.
pub proof fn lemma_use_after_definition_inside_tags(
    levels: Seq<Level>,
    line: usize,
    name: Seq<char>,
    vars: Variables,
    macrs: Macros,
    depth: nat,
)
    requires
        vars.contains_key(name),
        befores_define_no(levels, name),
    ensures
        expand_scope(
            seq![AstNodeView::AccessVar(line, name)],
            reach_inside(levels, vars, macrs, depth).0,
            reach_inside(levels, vars, macrs, depth).1,
            depth,
        ) == Ok::<Seq<ExpandedNodeView>, ErrorView>(vars[name]),
{
    reveal_with_fuel(expand_scope, 3);
    lemma_reach_inside(levels, name, vars, macrs, depth);
    let access = seq![AstNodeView::AccessVar(line, name)];
    assert(access[0] == AstNodeView::AccessVar(line, name));
    assert(access.subrange(1, 1) =~= Seq::empty());
    assert(vars[name] + Seq::<ExpandedNodeView>::empty() =~= vars[name]);
}

} // verus!
