//! What holds of the plan for a recipe and of the commands for it, by what the
//! `justfile` itself says.

use vstd::prelude::*;

use crate::justfile::{
    asked_for, dependency_command, dependency_name, dependency_names, is_next, is_next_at, is_plan, is_planned,
    lemma_plan_exists, needs, plan_of, recipe_commands, recipe_for, target_command, DependencyView, JustfileView,
    RecipeView,
};
use crate::text::joined;

verus! {

/// Whether `key` is the recipe that a name stands for: the one of that name or,
/// where there is none, one that the name is an alias for.
pub open spec fn stands_for(justfile: JustfileView, name: Seq<char>, key: Seq<char>) -> bool {
    &&& justfile.recipes.contains_key(key)
    &&& name == key || (!justfile.recipes.contains_key(name) && justfile.aliases.contains_key(name)
        && justfile.aliases[name] == key)
}

/// A name gives the recipe that it stands for, and nothing where it stands for
/// none. What a dependency needs is all that its recipe depends on, and nothing
/// where it has no recipe.
pub proof fn lemma_name_gives_its_recipe(justfile: JustfileView, dependency: DependencyView, key: Seq<char>)
    ensures
        stands_for(justfile, dependency.recipe, key) ==> {
            &&& recipe_for(justfile, dependency.recipe) == Some(justfile.recipes[key])
            &&& needs(justfile, dependency) == justfile.recipes[key].dependencies
        },
        (forall|k: Seq<char>| !stands_for(justfile, dependency.recipe, k)) ==> {
            &&& recipe_for(justfile, dependency.recipe) is None
            &&& needs(justfile, dependency).len() == 0
        },
{
    let name = dependency.recipe;
    if justfile.recipes.contains_key(name) {
        assert(stands_for(justfile, name, name));
    } else if justfile.aliases.contains_key(name) && justfile.recipes.contains_key(justfile.aliases[name]) {
        assert(stands_for(justfile, name, justfile.aliases[name]));
    }
}

/// The name of a dependency without arguments is that of its recipe; with
/// arguments it is that and then the arguments in brackets, with commas between
/// them.
pub proof fn lemma_name_of_a_dependency(dependency: DependencyView)
    ensures
        dependency.arguments.len() == 0 ==> dependency_name(dependency) == dependency.recipe,
        dependency.arguments.len() > 0 ==> {
            let name = dependency_name(dependency);
            let inner = joined(dependency.arguments, seq![',']);
            &&& name.len() == dependency.recipe.len() + inner.len() + 2
            &&& name.take(dependency.recipe.len() as int) == dependency.recipe
            &&& name[dependency.recipe.len() as int] == '('
            &&& name.subrange(dependency.recipe.len() as int + 1, name.len() - 1) == inner
            &&& name.last() == ')'
        },
{
    reveal_strlit("(");
    reveal_strlit(",");
    reveal_strlit(")");
    assert(","@ =~= seq![',']);
    if dependency.arguments.len() > 0 {
        let name = dependency_name(dependency);
        let inner = joined(dependency.arguments, seq![',']);
        assert(name.take(dependency.recipe.len() as int) =~= dependency.recipe);
        assert(name.subrange(dependency.recipe.len() as int + 1, name.len() - 1) =~= inner);
    }
}

/// Whether one of `planned` has that name.
pub open spec fn named_within(planned: Seq<DependencyView>, name: Seq<char>) -> bool {
    exists|i: int| 0 <= i < planned.len() && dependency_name(#[trigger] planned[i]) == name
}

/// Whether `asked` is asked for at place `p` of what the recipe of the
/// dependency at place `s` of `planned` depends on, or of `roots`, which stand
/// before all of them, at place -1.
pub open spec fn asks_at(
    justfile: JustfileView,
    roots: Seq<DependencyView>,
    planned: Seq<DependencyView>,
    s: int,
    p: int,
    asked: DependencyView,
) -> bool {
    if s == -1 {
        0 <= p < roots.len() && roots[p] == asked
    } else {
        0 <= s < planned.len() && exists|key: Seq<char>| #[trigger]
            stands_for(justfile, planned[s].recipe, key) && 0 <= p < justfile.recipes[key].dependencies.len()
                && justfile.recipes[key].dependencies[p] == asked
    }
}

/// Where what is asked for from place `s` begins in all that is asked for.
spec fn offset(
    justfile: JustfileView,
    roots: Seq<DependencyView>,
    planned: Seq<DependencyView>,
    s: int,
) -> int {
    if s == -1 {
        0
    } else {
        asked_for(justfile, roots, planned.take(s)).len() as int
    }
}

/// What is asked for up to one place more.
proof fn lemma_asked_for_one_more(
    justfile: JustfileView,
    roots: Seq<DependencyView>,
    planned: Seq<DependencyView>,
    s: int,
)
    requires
        0 <= s < planned.len(),
    ensures
        asked_for(justfile, roots, planned.take(s + 1)) == asked_for(justfile, roots, planned.take(s)) + needs(
            justfile,
            planned[s],
        ),
{
    assert(planned.take(s + 1).drop_last() =~= planned.take(s));
    assert(planned.take(s + 1).last() == planned[s]);
}

/// What is asked for up to a place comes first in all that is asked for.
proof fn lemma_asked_for_prefix(
    justfile: JustfileView,
    roots: Seq<DependencyView>,
    planned: Seq<DependencyView>,
    s: int,
    t: int,
)
    requires
        0 <= s <= t <= planned.len(),
    ensures
        asked_for(justfile, roots, planned.take(s)).is_prefix_of(asked_for(justfile, roots, planned.take(t))),
    decreases t - s,
{
    if s < t {
        lemma_asked_for_prefix(justfile, roots, planned, s, t - 1);
        lemma_asked_for_one_more(justfile, roots, planned, t - 1);
        let (a, b, c) = (
            asked_for(justfile, roots, planned.take(s)),
            asked_for(justfile, roots, planned.take(t - 1)),
            asked_for(justfile, roots, planned.take(t)),
        );
        assert(a == b.subrange(0, a.len() as int));
        assert(a =~= c.subrange(0, a.len() as int));
    }
}

/// What is asked for from a place stands where that place begins, and before
/// what is asked for from later places.
proof fn lemma_asked_there(
    justfile: JustfileView,
    roots: Seq<DependencyView>,
    planned: Seq<DependencyView>,
    s: int,
    p: int,
    asked: DependencyView,
)
    requires
        asks_at(justfile, roots, planned, s, p, asked),
    ensures
        -1 <= s < planned.len(),
        0 <= p,
        offset(justfile, roots, planned, s) + p < offset(justfile, roots, planned, s + 1),
        offset(justfile, roots, planned, s) + p < asked_for(justfile, roots, planned).len(),
        asked_for(justfile, roots, planned)[offset(justfile, roots, planned, s) + p] == asked,
{
    let all = asked_for(justfile, roots, planned);
    let n = planned.len() as int;
    assert(planned.take(n) =~= planned);
    if s == -1 {
        assert(planned.take(0) =~= Seq::<DependencyView>::empty());
        assert(asked_for(justfile, roots, planned.take(0)) == roots);
        lemma_asked_for_prefix(justfile, roots, planned, 0, n);
        assert(roots[p] == all.subrange(0, roots.len() as int)[p]);
    } else {
        let key = choose|key: Seq<char>| #[trigger]
            stands_for(justfile, planned[s].recipe, key) && 0 <= p < justfile.recipes[key].dependencies.len()
                && justfile.recipes[key].dependencies[p] == asked;
        lemma_name_gives_its_recipe(justfile, planned[s], key);
        lemma_asked_for_one_more(justfile, roots, planned, s);
        lemma_asked_for_prefix(justfile, roots, planned, s + 1, n);
        let part = asked_for(justfile, roots, planned.take(s + 1));
        let at = offset(justfile, roots, planned, s) + p;
        assert(part[at] == asked);
        assert(part == all.subrange(0, part.len() as int));
        assert(all[at] == part[at]);
    }
}

/// Each thing that is asked for is asked for from some place.
proof fn lemma_asked_from(
    justfile: JustfileView,
    roots: Seq<DependencyView>,
    planned: Seq<DependencyView>,
    i: int,
) -> (from: (int, int))
    requires
        0 <= i < asked_for(justfile, roots, planned).len(),
    ensures
        asks_at(justfile, roots, planned, from.0, from.1, asked_for(justfile, roots, planned)[i]),
        i == offset(justfile, roots, planned, from.0) + from.1,
    decreases planned.len(),
{
    let asked = asked_for(justfile, roots, planned)[i];
    if planned.len() == 0 {
        (-1, i)
    } else {
        let earlier = planned.drop_last();
        let before = asked_for(justfile, roots, earlier);
        let last = planned.len() - 1;
        assert(planned.take(last) =~= earlier);
        if i < before.len() {
            let from = lemma_asked_from(justfile, roots, earlier, i);
            if from.0 >= 0 {
                assert(earlier[from.0] == planned[from.0]);
                assert(earlier.take(from.0) =~= planned.take(from.0));
            }
            from
        } else {
            let name = planned.last().recipe;
            let key = if justfile.recipes.contains_key(name) {
                name
            } else {
                justfile.aliases[name]
            };
            assert(stands_for(justfile, planned[last].recipe, key));
            lemma_name_gives_its_recipe(justfile, planned.last(), key);
            assert(justfile.recipes[key].dependencies[i - before.len()] == asked);
            (last, i - before.len())
        }
    }
}

proof fn lemma_named_within(planned: Seq<DependencyView>, name: Seq<char>)
    ensures
        is_planned(planned, name) <==> named_within(planned, name),
{
    let names = dependency_names(planned);
    if is_planned(planned, name) {
        let i = choose|i: int| 0 <= i < names.len() && names[i] == name;
        assert(dependency_name(planned[i]) == name);
    }
    if named_within(planned, name) {
        let i = choose|i: int| 0 <= i < planned.len() && dependency_name(#[trigger] planned[i]) == name;
        assert(names[i] == name);
    }
}

/// A plan leaves nothing out: all that the roots are, and all that the recipe
/// of anything on the plan depends on, is on it by its name.
pub proof fn lemma_plan_leaves_nothing_out(
    justfile: JustfileView,
    roots: Seq<DependencyView>,
    planned: Seq<DependencyView>,
    s: int,
    p: int,
    asked: DependencyView,
)
    requires
        is_plan(justfile, roots, planned),
        asks_at(justfile, roots, planned, s, p, asked),
    ensures
        named_within(planned, dependency_name(asked)),
{
    lemma_asked_there(justfile, roots, planned, s, p, asked);
    let all = asked_for(justfile, roots, planned);
    let at = offset(justfile, roots, planned, s) + p;
    assert(is_planned(planned, dependency_name(all[at])));
    lemma_named_within(planned, dependency_name(asked));
}

/// Whether `planned[k]` is asked for at place `p` from place `s`, before it, and
/// all that is asked for earlier is on the plan before it.
pub open spec fn first_asked(
    justfile: JustfileView,
    roots: Seq<DependencyView>,
    planned: Seq<DependencyView>,
    k: int,
    s: int,
    p: int,
) -> bool {
    &&& -1 <= s < k
    &&& asks_at(justfile, roots, planned, s, p, planned[k])
    &&& forall|t: int, q: int, earlier: DependencyView|
        (t < s || (t == s && q < p)) && #[trigger] asks_at(justfile, roots, planned, t, q, earlier) ==> named_within(
            planned.take(k),
            dependency_name(earlier),
        )
}

/// A plan holds nothing without need, in the order in which it is asked for:
/// each thing on it is one of the roots or something that the recipe of a thing
/// before it depends on, and all that was asked for before it stands before it.
pub proof fn lemma_plan_first_asked_first(
    justfile: JustfileView,
    roots: Seq<DependencyView>,
    planned: Seq<DependencyView>,
    k: int,
)
    requires
        is_plan(justfile, roots, planned),
        0 <= k < planned.len(),
    ensures
        exists|s: int, p: int| first_asked(justfile, roots, planned, k, s, p),
{
    let before = planned.take(k);
    let asked = asked_for(justfile, roots, before);
    assert(is_next(asked, before, planned[k]));
    let i = choose|i: int| is_next_at(asked, before, planned[k], i);
    let (s, p) = lemma_asked_from(justfile, roots, before, i);
    lemma_asked_there(justfile, roots, before, s, p, planned[k]);
    if s >= 0 {
        assert(before[s] == planned[s]);
    }
    assert forall|t: int, q: int, earlier: DependencyView|
        (t < s || (t == s && q < p)) && #[trigger] asks_at(justfile, roots, planned, t, q, earlier) implies named_within(
        before,
        dependency_name(earlier),
    ) by {
        if t >= 0 {
            assert(before[t] == planned[t]);
        }
        assert(asks_at(justfile, roots, before, t, q, earlier));
        lemma_asked_there(justfile, roots, before, t, q, earlier);
        let at = offset(justfile, roots, before, t) + q;
        if t < s {
            lemma_asked_for_prefix(justfile, roots, before, t + 1, s);
        }
        assert(at < i);
        assert(is_planned(before, dependency_name(asked[at])));
        lemma_named_within(before, dependency_name(earlier));
    }
    assert(first_asked(justfile, roots, planned, k, s, p));
}

/// No two things on a plan have the same name.
pub proof fn lemma_plan_names_each_once(
    justfile: JustfileView,
    roots: Seq<DependencyView>,
    planned: Seq<DependencyView>,
    i: int,
    k: int,
)
    requires
        is_plan(justfile, roots, planned),
        0 <= i < k < planned.len(),
    ensures
        dependency_name(planned[i]) != dependency_name(planned[k]),
{
    let before = planned.take(k);
    let asked = asked_for(justfile, roots, before);
    assert(is_next(asked, before, planned[k]));
    assert(before[i] == planned[i]);
    lemma_named_within(before, dependency_name(planned[k]));
}

/// Whether one of the commands for a recipe has that name.
spec fn is_added(
    justfile: JustfileView,
    justfile_path: Option<Seq<char>>,
    recipe: RecipeView,
    name: Seq<char>,
) -> bool {
    let commands = recipe_commands(justfile, justfile_path, recipe);
    exists|at: int| 0 <= at < commands.len() && (#[trigger] commands[at]).name == name
}

proof fn lemma_planned_is_added(
    justfile: JustfileView,
    justfile_path: Option<Seq<char>>,
    recipe: RecipeView,
    name: Seq<char>,
)
    requires
        named_within(plan_of(justfile, recipe.dependencies), name),
    ensures
        is_added(justfile, justfile_path, recipe, name),
{
    let planned = plan_of(justfile, recipe.dependencies);
    let i = choose|i: int| 0 <= i < planned.len() && dependency_name(#[trigger] planned[i]) == name;
    assert(recipe_commands(justfile, justfile_path, recipe)[i + 1].name == name);
}

/// The recipe that was asked for is the first of the commands, and there is one
/// more for each thing on the plan. It waits for everything that it depends on,
/// in that order and for nothing else, and for each of these a command is added.
pub proof fn lemma_target_waits_for_its_dependencies(
    justfile: JustfileView,
    justfile_path: Option<Seq<char>>,
    recipe: RecipeView,
    k: int,
)
    requires
        justfile.recipes.dom().finite(),
    ensures
        ({
            let commands = recipe_commands(justfile, justfile_path, recipe);
            &&& commands.len() == 1 + plan_of(justfile, recipe.dependencies).len()
            &&& commands[0].name == recipe.name
            &&& commands[0].dependencies.len() == recipe.dependencies.len()
            &&& 0 <= k < recipe.dependencies.len() ==> {
                &&& commands[0].dependencies[k] == dependency_name(recipe.dependencies[k])
                &&& exists|at: int|
                    0 <= at < commands.len() && (#[trigger] commands[at]).name == dependency_name(
                        recipe.dependencies[k],
                    )
            }
        }),
{
    let roots = recipe.dependencies;
    let planned = plan_of(justfile, roots);
    lemma_plan_exists(justfile, roots);
    assert(recipe_commands(justfile, justfile_path, recipe)[0] == target_command(justfile_path, recipe));
    if 0 <= k < roots.len() {
        lemma_plan_leaves_nothing_out(justfile, roots, planned, -1, k, roots[k]);
        lemma_planned_is_added(justfile, justfile_path, recipe, dependency_name(roots[k]));
        assert(is_added(justfile, justfile_path, recipe, dependency_name(roots[k])));
    }
}

/// The command for anything on the plan has its name. Where its recipe is in
/// the `justfile`, by its own name or by an alias, the command waits for
/// everything that this recipe depends on, in that order and for nothing else,
/// and for each of these a command is added. Where it is not, the command waits
/// for nothing.
pub proof fn lemma_planned_waits_for_its_dependencies(
    justfile: JustfileView,
    justfile_path: Option<Seq<char>>,
    recipe: RecipeView,
    i: int,
    key: Seq<char>,
    k: int,
)
    requires
        justfile.recipes.dom().finite(),
        0 <= i < plan_of(justfile, recipe.dependencies).len(),
    ensures
        ({
            let commands = recipe_commands(justfile, justfile_path, recipe);
            let dependency = plan_of(justfile, recipe.dependencies)[i];
            &&& commands[i + 1].name == dependency_name(dependency)
            &&& stands_for(justfile, dependency.recipe, key) ==> {
                let needed = justfile.recipes[key].dependencies;
                &&& commands[i + 1].dependencies.len() == needed.len()
                &&& 0 <= k < needed.len() ==> {
                    &&& commands[i + 1].dependencies[k] == dependency_name(needed[k])
                    &&& exists|at: int|
                        0 <= at < commands.len() && (#[trigger] commands[at]).name == dependency_name(needed[k])
                }
            }
            &&& (forall|other: Seq<char>| !stands_for(justfile, dependency.recipe, other))
                ==> commands[i + 1].dependencies.len() == 0
        }),
{
    let roots = recipe.dependencies;
    let planned = plan_of(justfile, roots);
    let commands = recipe_commands(justfile, justfile_path, recipe);
    lemma_plan_exists(justfile, roots);
    assert(commands[i + 1] == dependency_command(justfile, justfile_path, planned[i]));
    lemma_name_gives_its_recipe(justfile, planned[i], key);
    if stands_for(justfile, planned[i].recipe, key) {
        let needed = justfile.recipes[key].dependencies;
        if 0 <= k < needed.len() {
            assert(asks_at(justfile, roots, planned, i, k, needed[k]));
            lemma_plan_leaves_nothing_out(justfile, roots, planned, i, k, needed[k]);
            lemma_planned_is_added(justfile, justfile_path, recipe, dependency_name(needed[k]));
            assert(is_added(justfile, justfile_path, recipe, dependency_name(needed[k])));
        }
    }
}

/// Every command calls `just` for one recipe alone, with the path of the
/// `justfile` where one was given, and then the recipe: for the first command
/// the one that was asked for, and for each other one that of the dependency it
/// stands for, with all the arguments of that in their order.
pub proof fn lemma_command_lines(
    justfile: JustfileView,
    justfile_path: Option<Seq<char>>,
    recipe: RecipeView,
    i: int,
)
    requires
        0 <= i <= plan_of(justfile, recipe.dependencies).len(),
    ensures
        ({
            let args = recipe_commands(justfile, justfile_path, recipe)[i].args;
            let called: int = if justfile_path is Some { 4 } else { 2 };
            &&& args[0] == "just"@
            &&& args[1] == "--no-deps"@
            &&& justfile_path matches Some(path) ==> args[2] == "--justfile"@ && args[3] == path
            &&& i == 0 ==> args.len() == called + 1 && args[called] == recipe.name
            &&& i > 0 ==> {
                let dependency = plan_of(justfile, recipe.dependencies)[i - 1];
                &&& args.len() == called + 1 + dependency.arguments.len()
                &&& args[called] == dependency.recipe
                &&& args.skip(called + 1) == dependency.arguments
            }
        }),
{
    let commands = recipe_commands(justfile, justfile_path, recipe);
    if i == 0 {
        assert(commands[0] == target_command(justfile_path, recipe));
    } else {
        let dependency = plan_of(justfile, recipe.dependencies)[i - 1];
        let called: int = if justfile_path is Some { 4 } else { 2 };
        assert(commands[i] == dependency_command(justfile, justfile_path, dependency));
        assert(commands[i].args.skip(called + 1) =~= dependency.arguments);
    }
}

} // verus!
