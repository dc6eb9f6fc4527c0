//! Which commands a `justfile` asks for.

use std::collections::VecDeque;

use vstd::prelude::*;

use crate::command::CommandView;
use crate::commands::{command_names, has_name, waits_are_met, waits_go_down, Commands, CommandsView};
use crate::ordered::OrderedMap;
use crate::text::{
    copied, integer, integer_text, joined, joined_text, lemma_first_cut, lemma_joined_tells_apart, texts,
};

verus! {

/// Another name for a recipe.
pub struct Alias {
    pub name: String,
    pub target: String,
}

/// A recipe, and what it depends on.
pub struct Recipe {
    pub name: String,
    pub dependencies: Vec<Dependency>,
}

/// A recipe that another one depends on, and the arguments it is given.
pub struct Dependency {
    pub recipe: String,
    pub arguments: Vec<String>,
}

/// The recipes of a `justfile`, the other names they have, and the recipe that
/// is run where none is asked for.
pub struct Justfile {
    pub aliases: OrderedMap<Alias>,
    pub first: String,
    pub recipes: OrderedMap<Recipe>,
}

/// What a [`Dependency`] says.
pub struct DependencyView {
    pub recipe: Seq<char>,
    pub arguments: Seq<Seq<char>>,
}

/// What a [`Recipe`] says.
pub struct RecipeView {
    pub name: Seq<char>,
    pub dependencies: Seq<DependencyView>,
}

/// What a [`Justfile`] says.
pub struct JustfileView {
    /// For each alias, the recipe that it stands for.
    pub aliases: Map<Seq<char>, Seq<char>>,
    pub first: Seq<char>,
    pub recipes: Map<Seq<char>, RecipeView>,
}

impl View for Dependency {
    type V = DependencyView;

    open spec fn view(&self) -> DependencyView {
        DependencyView { recipe: self.recipe@, arguments: texts(self.arguments@) }
    }
}

/// What each of the dependencies says.
pub open spec fn dependency_views(dependencies: Seq<Dependency>) -> Seq<DependencyView> {
    dependencies.map_values(|d: Dependency| d@)
}

impl View for Recipe {
    type V = RecipeView;

    open spec fn view(&self) -> RecipeView {
        RecipeView { name: self.name@, dependencies: dependency_views(self.dependencies@) }
    }
}

impl View for Justfile {
    type V = JustfileView;

    open spec fn view(&self) -> JustfileView {
        JustfileView {
            aliases: self.aliases@.map_values(|a: Alias| a.target@),
            first: self.first@,
            recipes: self.recipes@.map_values(|r: Recipe| r@),
        }
    }
}

/// The name of a dependency: that of its recipe, with the arguments in
/// brackets where there are any.
pub open spec fn dependency_name(dependency: DependencyView) -> Seq<char> {
    if dependency.arguments.len() == 0 {
        dependency.recipe
    } else {
        dependency.recipe + "("@ + joined(dependency.arguments, ","@) + ")"@
    }
}

/// The names of dependencies.
pub open spec fn dependency_names(dependencies: Seq<DependencyView>) -> Seq<Seq<char>> {
    dependencies.map_values(|d: DependencyView| dependency_name(d))
}

/// The recipe of a name: the one that has it, else the one it is an alias for.
pub open spec fn recipe_for(justfile: JustfileView, name: Seq<char>) -> Option<RecipeView> {
    if justfile.recipes.contains_key(name) {
        Some(justfile.recipes[name])
    } else if justfile.aliases.contains_key(name) && justfile.recipes.contains_key(justfile.aliases[name]) {
        Some(justfile.recipes[justfile.aliases[name]])
    } else {
        None
    }
}

/// What a dependency depends on in turn: what its recipe does, if there is one.
pub open spec fn needs(justfile: JustfileView, dependency: DependencyView) -> Seq<DependencyView> {
    match recipe_for(justfile, dependency.recipe) {
        Some(recipe) => recipe.dependencies,
        None => Seq::empty(),
    }
}

/// What is asked for by `roots`, and then by each of `planned` in turn.
pub open spec fn asked_for(
    justfile: JustfileView,
    roots: Seq<DependencyView>,
    planned: Seq<DependencyView>,
) -> Seq<DependencyView>
    decreases planned.len(),
{
    if planned.len() == 0 {
        roots
    } else {
        asked_for(justfile, roots, planned.drop_last()) + needs(justfile, planned.last())
    }
}

/// Whether one of `planned` has that name.
pub open spec fn is_planned(planned: Seq<DependencyView>, name: Seq<char>) -> bool {
    dependency_names(planned).contains(name)
}

/// Whether `next` is the first of `asked` whose name is not planned yet.
pub open spec fn is_next(
    asked: Seq<DependencyView>,
    planned: Seq<DependencyView>,
    next: DependencyView,
) -> bool {
    exists|i: int| is_next_at(asked, planned, next, i)
}

/// Whether the first of `asked` whose name is not planned yet is `next`, at
/// place `i`.
pub open spec fn is_next_at(
    asked: Seq<DependencyView>,
    planned: Seq<DependencyView>,
    next: DependencyView,
    i: int,
) -> bool {
    &&& 0 <= i < asked.len()
    &&& asked[i] == next
    &&& !is_planned(planned, dependency_name(next))
    &&& forall|k: int| 0 <= k < i ==> is_planned(planned, dependency_name(#[trigger] asked[k]))
}

/// Whether each of `planned` is the first thing that was asked for by `roots`
/// or by what is planned before it and whose name was not planned yet.
pub open spec fn is_in_turn(
    justfile: JustfileView,
    roots: Seq<DependencyView>,
    planned: Seq<DependencyView>,
) -> bool {
    forall|k: int|
        0 <= k < planned.len() ==> is_next(
            asked_for(justfile, roots, planned.take(k)),
            planned.take(k),
            #[trigger] planned[k],
        )
}

/// Whether `planned` is the plan for `roots`: everything on it comes in its
/// turn, and everything that is asked for is on it by its name.
pub open spec fn is_plan(
    justfile: JustfileView,
    roots: Seq<DependencyView>,
    planned: Seq<DependencyView>,
) -> bool {
    &&& is_in_turn(justfile, roots, planned)
    &&& forall|i: int|
        0 <= i < asked_for(justfile, roots, planned).len() ==> is_planned(
            planned,
            dependency_name(#[trigger] asked_for(justfile, roots, planned)[i]),
        )
}

/// The plan for `roots`.
pub open spec fn plan_of(justfile: JustfileView, roots: Seq<DependencyView>) -> Seq<DependencyView> {
    choose|planned: Seq<DependencyView>| is_plan(justfile, roots, planned)
}

/// How `just` is called for one recipe alone, up to the name of the recipe.
pub open spec fn just_call(justfile_path: Option<Seq<char>>) -> Seq<Seq<char>> {
    match justfile_path {
        Some(path) => seq!["just"@, "--no-deps"@, "--justfile"@, path],
        None => seq!["just"@, "--no-deps"@],
    }
}

/// The command for the recipe that was asked for.
pub open spec fn target_command(justfile_path: Option<Seq<char>>, recipe: RecipeView) -> CommandView {
    CommandView {
        name: recipe.name,
        args: just_call(justfile_path).push(recipe.name),
        dependencies: dependency_names(recipe.dependencies),
    }
}

/// The command for something that is depended on.
pub open spec fn dependency_command(
    justfile: JustfileView,
    justfile_path: Option<Seq<char>>,
    dependency: DependencyView,
) -> CommandView {
    CommandView {
        name: dependency_name(dependency),
        args: just_call(justfile_path).push(dependency.recipe) + dependency.arguments,
        dependencies: dependency_names(needs(justfile, dependency)),
    }
}

/// The commands for a recipe: its own, and one for each thing on the plan for
/// what it depends on.
pub open spec fn recipe_commands(
    justfile: JustfileView,
    justfile_path: Option<Seq<char>>,
    recipe: RecipeView,
) -> Seq<CommandView> {
    seq![target_command(justfile_path, recipe)] + plan_of(justfile, recipe.dependencies).map_values(
        |d: DependencyView| dependency_command(justfile, justfile_path, d),
    )
}

impl Dependency {
    /// The name of the dependency: that of its recipe, with the arguments in
    /// brackets where there are any.
    pub fn name(&self) -> (name: String)
        ensures
            name@ == dependency_name(self@),
    {
        if self.arguments.len() == 0 {
            self.recipe.clone()
        } else {
            let mut name = self.recipe.clone();
            name.append("(");
            name.append(joined_text(self.arguments.as_slice(), ",").as_str());
            name.append(")");
            name
        }
    }
}

fn names_of(dependencies: &Vec<Dependency>) -> (names: Vec<String>)
    ensures
        texts(names@) == dependency_names(dependency_views(dependencies@)),
{
    let mut names: Vec<String> = Vec::new();
    let ghost all = dependency_names(dependency_views(dependencies@));
    for i in 0..dependencies.len()
        invariant
            all == dependency_names(dependency_views(dependencies@)),
            texts(names@) == all.take(i as int),
    {
        let ghost earlier = names@;
        let name = dependencies[i].name();
        names.push(name);
        assert(texts(names@) =~= texts(earlier).push(name@));
        assert(all.take(i + 1) =~= all.take(i as int).push(all[i as int]));
    }
    assert(all.take(all.len() as int) == all);
    names
}

/// The names of all that is asked for by some roots or by any recipe.
pub open spec fn mentioned(justfile: JustfileView, roots: Seq<DependencyView>) -> Set<Seq<char>> {
    dependency_names(roots).to_set().union(names_within(justfile.recipes))
}

/// The names of all that some recipes depend on.
pub open spec fn names_within(recipes: Map<Seq<char>, RecipeView>) -> Set<Seq<char>> {
    Set::new(
        |name: Seq<char>|
            exists|key: Seq<char>| #[trigger]
                recipes.contains_key(key) && dependency_names(recipes[key].dependencies).contains(name),
    )
}

proof fn lemma_names_within_finite(recipes: Map<Seq<char>, RecipeView>)
    requires
        recipes.dom().finite(),
    ensures
        names_within(recipes).finite(),
    decreases recipes.dom().len(),
{
    if recipes.dom().len() == 0 {
        assert(recipes.dom() =~= Set::empty());
        assert(names_within(recipes) =~= Set::empty());
    } else {
        let key = recipes.dom().choose();
        let rest = recipes.remove(key);
        lemma_names_within_finite(rest);
        let own = dependency_names(recipes[key].dependencies);
        vstd::seq_lib::seq_to_set_is_finite(own);
        assert forall|name: Seq<char>|
            names_within(recipes).contains(name) <==> names_within(rest).union(own.to_set()).contains(name) by {
            if names_within(recipes).contains(name) {
                let k = choose|k: Seq<char>| #[trigger]
                    recipes.contains_key(k) && dependency_names(recipes[k].dependencies).contains(name);
                if k != key {
                    assert(rest.contains_key(k));
                }
            }
            if names_within(rest).contains(name) {
                let k = choose|k: Seq<char>| #[trigger]
                    rest.contains_key(k) && dependency_names(rest[k].dependencies).contains(name);
                assert(recipes.contains_key(k));
            }
            if own.to_set().contains(name) {
                assert(recipes.contains_key(key));
            }
        }
        assert(names_within(recipes) =~= names_within(rest).union(own.to_set()));
    }
}

proof fn lemma_mentioned_finite(justfile: JustfileView, roots: Seq<DependencyView>)
    requires
        justfile.recipes.dom().finite(),
    ensures
        mentioned(justfile, roots).finite(),
{
    lemma_names_within_finite(justfile.recipes);
    vstd::seq_lib::seq_to_set_is_finite(dependency_names(roots));
}

/// Everything that is asked for is mentioned.
proof fn lemma_asked_for_is_mentioned(
    justfile: JustfileView,
    roots: Seq<DependencyView>,
    planned: Seq<DependencyView>,
    i: int,
)
    requires
        0 <= i < asked_for(justfile, roots, planned).len(),
    ensures
        mentioned(justfile, roots).contains(dependency_name(asked_for(justfile, roots, planned)[i])),
    decreases planned.len(),
{
    let asked = asked_for(justfile, roots, planned);
    if planned.len() == 0 {
        assert(dependency_names(roots)[i] == dependency_name(roots[i]));
    } else {
        let earlier = asked_for(justfile, roots, planned.drop_last());
        if i < earlier.len() {
            lemma_asked_for_is_mentioned(justfile, roots, planned.drop_last(), i);
        } else {
            let recipe = recipe_for(justfile, planned.last().recipe)->0;
            let names = dependency_names(recipe.dependencies);
            assert(names[i - earlier.len()] == dependency_name(asked[i]));
            let key = if justfile.recipes.contains_key(planned.last().recipe) {
                planned.last().recipe
            } else {
                justfile.aliases[planned.last().recipe]
            };
            assert(justfile.recipes.contains_key(key));
            assert(justfile.recipes[key] == recipe);
        }
    }
}

/// What comes in its turn has names of its own, all of them mentioned, and so
/// there is no more of it than there are names mentioned.
proof fn lemma_in_turn_is_bounded(
    justfile: JustfileView,
    roots: Seq<DependencyView>,
    planned: Seq<DependencyView>,
)
    requires
        justfile.recipes.dom().finite(),
        is_in_turn(justfile, roots, planned),
    ensures
        dependency_names(planned).no_duplicates(),
        planned.len() <= mentioned(justfile, roots).len(),
{
    let names = dependency_names(planned);
    lemma_in_turn_names_distinct(justfile, roots, planned);
    assert forall|name: Seq<char>| names.to_set().contains(name) implies mentioned(justfile, roots).contains(name) by {
        let k = choose|k: int| 0 <= k < names.len() && names[k] == name;
        let asked = asked_for(justfile, roots, planned.take(k));
        assert(is_next(asked, planned.take(k), planned[k]));
        let i = choose|i: int| is_next_at(asked, planned.take(k), planned[k], i);
        lemma_asked_for_is_mentioned(justfile, roots, planned.take(k), i);
    }
    lemma_mentioned_finite(justfile, roots);
    names.unique_seq_to_set();
    vstd::set_lib::lemma_len_subset(names.to_set(), mentioned(justfile, roots));
}

proof fn lemma_in_turn_names_distinct(
    justfile: JustfileView,
    roots: Seq<DependencyView>,
    planned: Seq<DependencyView>,
)
    requires
        is_in_turn(justfile, roots, planned),
    ensures
        dependency_names(planned).no_duplicates(),
{
    let names = dependency_names(planned);
    assert forall|i: int, k: int| 0 <= i < k < names.len() implies names[i] != names[k] by {
        assert(is_next(asked_for(justfile, roots, planned.take(k)), planned.take(k), planned[k]));
        assert(dependency_names(planned.take(k))[i] == names[i]);
    }
}

/// Planning one thing more, in its turn.
proof fn lemma_in_turn_extends(
    justfile: JustfileView,
    roots: Seq<DependencyView>,
    planned: Seq<DependencyView>,
    next: DependencyView,
)
    requires
        is_in_turn(justfile, roots, planned),
        is_next(asked_for(justfile, roots, planned), planned, next),
    ensures
        is_in_turn(justfile, roots, planned.push(next)),
        asked_for(justfile, roots, planned.push(next)) == asked_for(justfile, roots, planned) + needs(
            justfile,
            next,
        ),
        dependency_names(planned.push(next)) == dependency_names(planned).push(dependency_name(next)),
{
    let longer = planned.push(next);
    assert(longer.drop_last() == planned);
    assert forall|k: int| 0 <= k < longer.len() implies is_next(
        asked_for(justfile, roots, longer.take(k)),
        longer.take(k),
        #[trigger] longer[k],
    ) by {
        if k < planned.len() {
            assert(longer.take(k) == planned.take(k));
            assert(longer[k] == planned[k]);
        } else {
            assert(longer.take(k) == planned);
        }
    }
    assert(dependency_names(longer) =~= dependency_names(planned).push(dependency_name(next)));
}

/// There is one plan at most.
pub proof fn lemma_plan_unique(
    justfile: JustfileView,
    roots: Seq<DependencyView>,
    a: Seq<DependencyView>,
    b: Seq<DependencyView>,
)
    requires
        is_plan(justfile, roots, a),
        is_plan(justfile, roots, b),
    ensures
        a == b,
{
    lemma_plans_agree(justfile, roots, a, b, if a.len() < b.len() { a.len() } else { b.len() });
    assert(a.take(a.len() as int) == a);
    assert(b.take(b.len() as int) == b);
    if a.len() <= b.len() {
        lemma_plan_not_longer(justfile, roots, a, b);
    } else {
        lemma_plan_not_longer(justfile, roots, b, a);
    }
}

proof fn lemma_plans_agree(
    justfile: JustfileView,
    roots: Seq<DependencyView>,
    a: Seq<DependencyView>,
    b: Seq<DependencyView>,
    n: nat,
)
    requires
        is_in_turn(justfile, roots, a),
        is_in_turn(justfile, roots, b),
        n <= a.len(),
        n <= b.len(),
    ensures
        a.take(n as int) == b.take(n as int),
    decreases n,
{
    if n > 0 {
        let k = n - 1;
        lemma_plans_agree(justfile, roots, a, b, k as nat);
        let planned = a.take(k);
        let asked = asked_for(justfile, roots, planned);
        assert(is_next(asked, planned, a[k]));
        assert(is_next(asked_for(justfile, roots, b.take(k)), b.take(k), b[k]));
        let i = choose|i: int| is_next_at(asked, planned, a[k], i);
        let j = choose|j: int| is_next_at(asked, planned, b[k], j);
        if i < j {
            assert(is_planned(planned, dependency_name(asked[i])));
        }
        if j < i {
            assert(is_planned(planned, dependency_name(asked[j])));
        }
        assert(a[k] == b[k]);
        assert(a.take(n as int) =~= planned.push(a[k]));
        assert(b.take(n as int) =~= planned.push(b[k]));
    } else {
        assert(a.take(0) =~= b.take(0));
    }
}

proof fn lemma_plan_not_longer(
    justfile: JustfileView,
    roots: Seq<DependencyView>,
    a: Seq<DependencyView>,
    b: Seq<DependencyView>,
)
    requires
        is_plan(justfile, roots, a),
        is_in_turn(justfile, roots, b),
        a.len() <= b.len(),
        a == b.take(a.len() as int),
    ensures
        a.len() == b.len(),
{
    if a.len() < b.len() {
        let k = a.len() as int;
        let asked = asked_for(justfile, roots, a);
        assert(is_next(asked_for(justfile, roots, b.take(k)), b.take(k), b[k]));
        let i = choose|i: int| is_next_at(asked, a, b[k], i);
        assert(is_planned(a, dependency_name(asked[i])));
    }
}

proof fn lemma_plan_from(
    justfile: JustfileView,
    roots: Seq<DependencyView>,
    planned: Seq<DependencyView>,
) -> (plan: Seq<DependencyView>)
    requires
        justfile.recipes.dom().finite(),
        is_in_turn(justfile, roots, planned),
    ensures
        is_plan(justfile, roots, plan),
    decreases mentioned(justfile, roots).len() - planned.len(),
{
    let asked = asked_for(justfile, roots, planned);
    lemma_in_turn_is_bounded(justfile, roots, planned);
    if forall|i: int| 0 <= i < asked.len() ==> is_planned(planned, dependency_name(#[trigger] asked[i])) {
        planned
    } else {
        let i = choose|i: int|
            0 <= i < asked.len() && !is_planned(planned, dependency_name(#[trigger] asked[i]));
        let first = lemma_first_unplanned(asked, planned, i);
        assert(is_next_at(asked, planned, asked[first], first));
        lemma_in_turn_extends(justfile, roots, planned, asked[first]);
        lemma_in_turn_is_bounded(justfile, roots, planned.push(asked[first]));
        lemma_plan_from(justfile, roots, planned.push(asked[first]))
    }
}

proof fn lemma_first_unplanned(asked: Seq<DependencyView>, planned: Seq<DependencyView>, i: int) -> (first: int)
    requires
        0 <= i < asked.len(),
        !is_planned(planned, dependency_name(asked[i])),
    ensures
        0 <= first <= i,
        !is_planned(planned, dependency_name(asked[first])),
        forall|k: int| 0 <= k < first ==> is_planned(planned, dependency_name(#[trigger] asked[k])),
    decreases i,
{
    if forall|k: int| 0 <= k < i ==> is_planned(planned, dependency_name(#[trigger] asked[k])) {
        i
    } else {
        let k = choose|k: int| 0 <= k < i && !is_planned(planned, dependency_name(#[trigger] asked[k]));
        lemma_first_unplanned(asked, planned, k)
    }
}

/// There is a plan, for any roots, where there are finitely many recipes.
pub proof fn lemma_plan_exists(justfile: JustfileView, roots: Seq<DependencyView>)
    requires
        justfile.recipes.dom().finite(),
    ensures
        is_plan(justfile, roots, plan_of(justfile, roots)),
{
    let plan = lemma_plan_from(justfile, roots, Seq::empty());
    assert(is_plan(justfile, roots, plan));
}

/// No two things on a plan have the same name.
pub proof fn lemma_plan_names_distinct(
    justfile: JustfileView,
    roots: Seq<DependencyView>,
    planned: Seq<DependencyView>,
)
    requires
        is_plan(justfile, roots, planned),
    ensures
        dependency_names(planned).no_duplicates(),
{
    lemma_in_turn_names_distinct(justfile, roots, planned);
}

impl Justfile {
    /// Both maps stand in order.
    pub open spec fn wf(self) -> bool {
        &&& self.aliases.wf()
        &&& self.recipes.wf()
    }

    /// The recipe of a name: the one that has it, else the one it is an alias
    /// for.
    pub fn recipe(&self, name: &str) -> (recipe: Option<&Recipe>)
        requires
            self.wf(),
        ensures
            match recipe {
                Some(r) => recipe_for(self@, name@) == Some(r@),
                None => recipe_for(self@, name@) is None,
            },
            self.recipes@.contains_key(name@) ==> recipe == Some(&self.recipes@[name@]),
            !self.recipes@.contains_key(name@) && !self.aliases@.contains_key(name@) ==> recipe is None,
    {
        if let Some(recipe) = self.recipes.get(name) {
            return Some(recipe);
        }
        if let Some(target) = self.aliases.get(name) {
            return self.recipes.get(target.target.as_str());
        }
        None
    }

    /// The plan for what a recipe depends on: everything that it or something
    /// else on the plan depends on, by its name once, in the order in which it
    /// is asked for.
    pub fn plan<'a>(&'a self, recipe: &'a Recipe) -> (planned: Vec<&'a Dependency>)
        requires
            self.wf(),
        ensures
            is_plan(self@, recipe@.dependencies, referred(planned@)),
            referred(planned@) == plan_of(self@, recipe@.dependencies),
    {
        let mut planned: Vec<&'a Dependency> = Vec::new();
        let mut prepared: OrderedMap<()> = OrderedMap::new();
        let mut queue: VecDeque<&'a Dependency> = VecDeque::new();
        let ghost justfile = self@;
        let ghost roots = recipe@.dependencies;
        proof {
            self.recipes.lemma_names();
            vstd::seq_lib::seq_to_set_is_finite(self.recipes.names());
            assert(justfile.recipes.dom() =~= self.recipes@.dom());
        }
        Self::enqueue(&mut queue, &recipe.dependencies);
        let ghost mut done: Seq<DependencyView> = Seq::empty();
        let ghost mut so_far: Seq<DependencyView> = Seq::empty();
        proof {
            assert(referred(queue@) =~= roots);
            assert(done + referred(queue@) =~= asked_for(justfile, roots, so_far));
            assert(referred(planned@) =~= so_far);
        }
        while queue.len() > 0
            invariant
                self.wf(),
                justfile == self@,
                justfile.recipes.dom().finite(),
                prepared.wf(),
                so_far == referred(planned@),
                is_in_turn(justfile, roots, so_far),
                done + referred(queue@) == asked_for(justfile, roots, so_far),
                forall|i: int| 0 <= i < done.len() ==> is_planned(so_far, dependency_name(#[trigger] done[i])),
                forall|name: Seq<char>| #[trigger] prepared@.contains_key(name) <==> is_planned(so_far, name),
            decreases mentioned(justfile, roots).len() - so_far.len(), queue@.len(),
        {
            let ghost waiting = referred(queue@);
            let ghost asked = asked_for(justfile, roots, so_far);
            proof {
                lemma_in_turn_is_bounded(justfile, roots, so_far);
            }
            let popped = queue.pop_front();
            if let Some(dependency) = popped {
                let name = dependency.name();
                let ghost read = name@;
                proof {
                    assert(waiting[0] == dependency@);
                    assert(asked[done.len() as int] == dependency@);
                    assert(referred(queue@) =~= waiting.skip(1));
                    assert(done.push(dependency@) + referred(queue@) =~= asked);
                }
                if prepared.insert(name, ()).is_some() {
                    proof {
                        assert(is_planned(so_far, read));
                        done = done.push(dependency@);
                    }
                } else {
                    proof {
                        assert forall|k: int| 0 <= k < done.len() implies is_planned(
                            so_far,
                            dependency_name(#[trigger] asked[k]),
                        ) by {
                            assert(asked[k] == done[k]);
                        }
                        assert(is_next_at(asked, so_far, dependency@, done.len() as int));
                        lemma_in_turn_extends(justfile, roots, so_far, dependency@);
                    }
                    let ghost rest = referred(queue@);
                    if let Some(needed) = self.recipe(dependency.recipe.as_str()) {
                        Self::enqueue(&mut queue, &needed.dependencies);
                    }
                    planned.push(dependency);
                    proof {
                        let longer = so_far.push(dependency@);
                        assert(referred(planned@) =~= longer);
                        assert(referred(queue@) =~= rest + needs(justfile, dependency@));
                        let names = dependency_names(so_far);
                        let more = dependency_names(longer);
                        assert forall|other: Seq<char>|
                            more.contains(other) <==> names.contains(other) || other == read by {
                            if names.contains(other) {
                                let k = choose|k: int| 0 <= k < names.len() && names[k] == other;
                                assert(more[k] == other);
                            }
                            assert(more[names.len() as int] == read);
                            if more.contains(other) {
                                let k = choose|k: int| 0 <= k < more.len() && more[k] == other;
                                if k < names.len() {
                                    assert(names[k] == other);
                                }
                            }
                        }
                        let (had_planned, had_done) = (so_far, done);
                        so_far = longer;
                        done = done.push(dependency@);
                        assert(done + referred(queue@) =~= asked_for(justfile, roots, so_far));
                        assert forall|i: int| 0 <= i < done.len() implies is_planned(
                            so_far,
                            dependency_name(#[trigger] done[i]),
                        ) by {
                            if i < had_done.len() {
                                assert(is_planned(had_planned, dependency_name(had_done[i])));
                            }
                        }
                        lemma_in_turn_is_bounded(justfile, roots, so_far);
                    }
                }
            }
        }
        proof {
            assert(done =~= asked_for(justfile, roots, so_far));
            assert(is_plan(justfile, roots, so_far));
            lemma_plan_unique(justfile, roots, so_far, plan_of(justfile, roots));
        }
        planned
    }

    fn enqueue<'a>(queue: &mut VecDeque<&'a Dependency>, dependencies: &'a Vec<Dependency>)
        ensures
            referred(final(queue)@) == referred(old(queue)@) + dependency_views(dependencies@),
    {
        let ghost before = referred(queue@);
        let ghost all = dependency_views(dependencies@);
        assert(before + all.take(0) =~= before);
        for i in 0..dependencies.len()
            invariant
                all == dependency_views(dependencies@),
                referred(queue@) == before + all.take(i as int),
        {
            let ghost earlier = referred(queue@);
            queue.push_back(&dependencies[i]);
            assert(referred(queue@) =~= earlier.push(all[i as int]));
            assert(before + all.take(i + 1) =~= earlier.push(all[i as int]));
        }
        assert(all.take(all.len() as int) == all);
    }
}

/// What each of the dependencies referred to says.
pub open spec fn referred(dependencies: Seq<&Dependency>) -> Seq<DependencyView> {
    dependencies.map_values(|d: &Dependency| d@)
}

/// Something that is asked for is one of `roots` or needed by something planned.
proof fn lemma_asked_for_by(
    justfile: JustfileView,
    roots: Seq<DependencyView>,
    planned: Seq<DependencyView>,
    asked: DependencyView,
)
    ensures
        asked_for(justfile, roots, planned).contains(asked) <==> roots.contains(asked) || exists|j: int|
            0 <= j < planned.len() && needs(justfile, #[trigger] planned[j]).contains(asked),
    decreases planned.len(),
{
    if planned.len() > 0 {
        let earlier = planned.drop_last();
        lemma_asked_for_by(justfile, roots, earlier, asked);
        let before = asked_for(justfile, roots, earlier);
        let more = needs(justfile, planned.last());
        let all = asked_for(justfile, roots, planned);
        assert(all == before + more);
        if all.contains(asked) {
            let i = choose|i: int| 0 <= i < all.len() && all[i] == asked;
            if i < before.len() {
                assert(before[i] == asked);
                if !roots.contains(asked) {
                    let j = choose|j: int|
                        0 <= j < earlier.len() && needs(justfile, #[trigger] earlier[j]).contains(asked);
                    assert(planned[j] == earlier[j]);
                }
            } else {
                assert(more[i - before.len()] == asked);
                assert(planned[planned.len() - 1] == planned.last());
            }
        }
        if before.contains(asked) {
            let i = choose|i: int| 0 <= i < before.len() && before[i] == asked;
            assert(all[i] == asked);
        }
        if more.contains(asked) {
            let i = choose|i: int| 0 <= i < more.len() && more[i] == asked;
            assert(all[before.len() + i] == asked);
        }
        if exists|j: int| 0 <= j < planned.len() && needs(justfile, #[trigger] planned[j]).contains(asked) {
            let j = choose|j: int|
                0 <= j < planned.len() && needs(justfile, #[trigger] planned[j]).contains(asked);
            if j < earlier.len() {
                assert(earlier[j] == planned[j]);
            }
        }
    }
}

/// Nothing is planned without need: everything on a plan is one of the roots
/// or needed by something that stands before it.
pub proof fn lemma_plan_needed(
    justfile: JustfileView,
    roots: Seq<DependencyView>,
    planned: Seq<DependencyView>,
    k: int,
)
    requires
        is_plan(justfile, roots, planned),
        0 <= k < planned.len(),
    ensures
        roots.contains(planned[k]) || exists|j: int|
            0 <= j < k && needs(justfile, #[trigger] planned[j]).contains(planned[k]),
{
    let before = planned.take(k);
    let asked = asked_for(justfile, roots, before);
    assert(is_next(asked, before, planned[k]));
    let i = choose|i: int| is_next_at(asked, before, planned[k], i);
    assert(asked[i] == planned[k]);
    lemma_asked_for_by(justfile, roots, before, planned[k]);
    if !roots.contains(planned[k]) {
        let j = choose|j: int| 0 <= j < before.len() && needs(justfile, #[trigger] before[j]).contains(planned[k]);
        assert(planned[j] == before[j]);
    }
}

/// Nothing that is needed is left out of a plan: the roots are on it by their
/// names, and so is everything that something on it needs.
pub proof fn lemma_plan_complete(
    justfile: JustfileView,
    roots: Seq<DependencyView>,
    planned: Seq<DependencyView>,
    needed: DependencyView,
)
    requires
        is_plan(justfile, roots, planned),
        roots.contains(needed) || exists|j: int|
            0 <= j < planned.len() && needs(justfile, #[trigger] planned[j]).contains(needed),
    ensures
        is_planned(planned, dependency_name(needed)),
{
    lemma_asked_for_by(justfile, roots, planned, needed);
    let asked = asked_for(justfile, roots, planned);
    let i = choose|i: int| 0 <= i < asked.len() && asked[i] == needed;
    assert(is_planned(planned, dependency_name(asked[i])));
}

/// Every name that one of the commands for a recipe waits for is the name of
/// one of them.
pub proof fn lemma_recipe_commands_closed(
    justfile: JustfileView,
    justfile_path: Option<Seq<char>>,
    recipe: RecipeView,
)
    requires
        justfile.recipes.dom().finite(),
    ensures
        waits_are_met(recipe_commands(justfile, justfile_path, recipe)),
{
    let roots = recipe.dependencies;
    let planned = plan_of(justfile, roots);
    let commands = recipe_commands(justfile, justfile_path, recipe);
    lemma_plan_exists(justfile, roots);
    assert forall|i: int, k: int|
        0 <= i < commands.len() && 0 <= k < commands[i].dependencies.len() implies has_name(
        commands,
        #[trigger] commands[i].dependencies[k],
    ) by {
        let name = commands[i].dependencies[k];
        let needed = if i == 0 {
            roots[k]
        } else {
            needs(justfile, planned[i - 1])[k]
        };
        assert(dependency_name(needed) == name);
        if i > 0 {
            assert(needs(justfile, planned[i - 1]).contains(needed));
        }
        lemma_plan_complete(justfile, roots, planned, needed);
        let names = dependency_names(planned);
        let at = choose|at: int| 0 <= at < names.len() && names[at] == name;
        assert(commands[at + 1].name == name);
    }
}

/// Where no recipe depends on itself, what is on the plan has a lower rank than
/// the recipe it is made for.
proof fn lemma_planned_ranks_lower(
    justfile: JustfileView,
    justfile_path: Option<Seq<char>>,
    recipe: RecipeView,
    rank: spec_fn(Seq<char>) -> nat,
    k: int,
)
    requires
        justfile.recipes.dom().finite(),
        waits_go_down(recipe_commands(justfile, justfile_path, recipe), rank),
        0 <= k < plan_of(justfile, recipe.dependencies).len(),
    ensures
        rank(dependency_name(plan_of(justfile, recipe.dependencies)[k])) < rank(recipe.name),
    decreases k,
{
    let roots = recipe.dependencies;
    let planned = plan_of(justfile, roots);
    let commands = recipe_commands(justfile, justfile_path, recipe);
    let name = dependency_name(planned[k]);
    lemma_plan_exists(justfile, roots);
    lemma_plan_needed(justfile, roots, planned, k);
    if roots.contains(planned[k]) {
        let i = choose|i: int| 0 <= i < roots.len() && roots[i] == planned[k];
        assert(commands[0].dependencies[i] == name);
    } else {
        let j = choose|j: int| 0 <= j < k && needs(justfile, #[trigger] planned[j]).contains(planned[k]);
        lemma_planned_ranks_lower(justfile, justfile_path, recipe, rank, j);
        let needed = needs(justfile, planned[j]);
        let i = choose|i: int| 0 <= i < needed.len() && needed[i] == planned[k];
        assert(commands[j + 1].dependencies[i] == name);
        assert(commands[j + 1].name == dependency_name(planned[j]));
    }
}

/// Where no recipe depends on itself, the commands for a recipe have names of
/// their own, so that none becomes ready twice.
pub proof fn lemma_recipe_commands_distinct(
    justfile: JustfileView,
    justfile_path: Option<Seq<char>>,
    recipe: RecipeView,
    rank: spec_fn(Seq<char>) -> nat,
)
    requires
        justfile.recipes.dom().finite(),
        waits_go_down(recipe_commands(justfile, justfile_path, recipe), rank),
    ensures
        command_names(recipe_commands(justfile, justfile_path, recipe)).no_duplicates(),
{
    let roots = recipe.dependencies;
    let planned = plan_of(justfile, roots);
    let commands = recipe_commands(justfile, justfile_path, recipe);
    let names = command_names(commands);
    lemma_plan_exists(justfile, roots);
    lemma_plan_names_distinct(justfile, roots, planned);
    assert forall|i: int, k: int| 0 <= i < k < names.len() implies names[i] != names[k] by {
        assert(names[k] == dependency_name(planned[k - 1]));
        if i == 0 {
            lemma_planned_ranks_lower(justfile, justfile_path, recipe, rank, k - 1);
        } else {
            assert(names[i] == dependency_names(planned)[i - 1]);
            assert(names[k] == dependency_names(planned)[k - 1]);
        }
    }
}

/// Names tell dependencies apart: where no recipe has a bracket in its name and
/// no argument has a comma, two dependencies of the same name have the same
/// recipe and the same arguments.
pub proof fn lemma_names_tell_apart(a: DependencyView, b: DependencyView)
    requires
        !a.recipe.contains('('),
        !b.recipe.contains('('),
        forall|i: int| 0 <= i < a.arguments.len() ==> !(#[trigger] a.arguments[i]).contains(','),
        forall|i: int| 0 <= i < b.arguments.len() ==> !(#[trigger] b.arguments[i]).contains(','),
        dependency_name(a) == dependency_name(b),
    ensures
        a.recipe == b.recipe,
        a.arguments == b.arguments,
{
    reveal_strlit("(");
    reveal_strlit(",");
    reveal_strlit(")");
    assert(","@ =~= seq![',']);
    let (x, y) = (joined(a.arguments, ","@), joined(b.arguments, ","@));
    let name = dependency_name(a);
    if a.arguments.len() > 0 {
        assert(name =~= a.recipe.push('(') + x.push(')'));
        assert(name[a.recipe.len() as int] == '(');
    }
    if b.arguments.len() > 0 {
        assert(name =~= b.recipe.push('(') + y.push(')'));
        assert(name[b.recipe.len() as int] == '(');
    }
    if a.arguments.len() > 0 && b.arguments.len() > 0 {
        lemma_first_cut(a.recipe, x.push(')'), b.recipe, y.push(')'), '(');
        assert(x.push(')').drop_last() =~= x);
        assert(y.push(')').drop_last() =~= y);
        lemma_joined_tells_apart(a.arguments, b.arguments, ',');
    } else if a.arguments.len() > 0 {
        assert(b.recipe.contains('('));
    } else if b.arguments.len() > 0 {
        assert(a.recipe.contains('('));
    } else {
        assert(a.arguments =~= b.arguments);
    }
}

/// Why a `justfile` gives no commands.
#[derive(Debug)]
pub enum JustfileError {
    /// `just` itself failed, with this status.
    JustFailed(i32),
    /// There is no recipe of that name.
    RecipeNotFound(String),
}

impl JustfileError {
    /// The error in words.
    pub fn message(&self) -> (message: String)
        ensures
            message@ == match self {
                JustfileError::JustFailed(status) => "command 'just' exited with status "@ + integer(*status as int),
                JustfileError::RecipeNotFound(name) => "recipe "@ + name@ + " not found"@,
            },
    {
        match self {
            JustfileError::JustFailed(status) => {
                let mut message = String::from_str("command 'just' exited with status ");
                message.append(integer_text(*status).as_str());
                message
            },
            JustfileError::RecipeNotFound(name) => {
                let mut message = String::from_str("recipe ");
                message.append(name.as_str());
                message.append(" not found");
                message
            },
        }
    }
}

/// The arguments with which `just` is asked for what a `justfile` says.
pub fn dump_arguments(justfile_path: Option<&str>) -> (arguments: Vec<String>)
    ensures
        texts(arguments@) == match justfile_path {
            Some(path) => seq!["--dump"@, "--dump-format=json"@, "--justfile"@, path@],
            None => seq!["--dump"@, "--dump-format=json"@],
        },
{
    let mut arguments: Vec<String> = Vec::new();
    arguments.push("--dump".to_owned());
    arguments.push("--dump-format=json".to_owned());
    if let Some(path) = justfile_path {
        arguments.push("--justfile".to_owned());
        arguments.push(path.to_owned());
        assert(texts(arguments@) =~= seq!["--dump"@, "--dump-format=json"@, "--justfile"@, path@]);
    } else {
        assert(texts(arguments@) =~= seq!["--dump"@, "--dump-format=json"@]);
    }
    arguments
}

/// Takes up how `just` ended that was asked for what a `justfile` says: where
/// it failed, its status is its exit code, or 1 where it has none.
pub fn dump_result(success: bool, code: Option<i32>) -> (result: Result<(), JustfileError>)
    ensures
        result is Ok <==> success,
        !success ==> result == Err::<(), JustfileError>(
            JustfileError::JustFailed(
                match code {
                    Some(c) => c,
                    None => 1,
                },
            ),
        ),
{
    if success {
        Ok(())
    } else {
        match code {
            Some(c) => Err(JustfileError::JustFailed(c)),
            None => Err(JustfileError::JustFailed(1)),
        }
    }
}

/// What an optional string reads.
pub open spec fn optional_text(text: Option<&str>) -> Option<Seq<char>> {
    match text {
        Some(t) => Some(t@),
        None => None,
    }
}

fn call_just(justfile_path: Option<&str>, recipe: &str) -> (args: Vec<String>)
    ensures
        texts(args@) == just_call(optional_text(justfile_path)).push(recipe@),
{
    let mut args: Vec<String> = Vec::new();
    args.push("just".to_owned());
    args.push("--no-deps".to_owned());
    if let Some(path) = justfile_path {
        args.push("--justfile".to_owned());
        args.push(path.to_owned());
    }
    args.push(recipe.to_owned());
    assert(texts(args@) =~= just_call(optional_text(justfile_path)).push(recipe@));
    args
}

/// Adds the commands for a recipe of a `justfile` and for everything that it
/// depends on. The recipe is `target`, or the one that the `justfile` runs
/// where none is asked for.
pub fn read_justfile_for_target(
    commands: &mut Commands,
    justfile: &Justfile,
    justfile_path: Option<&str>,
    target: Option<&str>,
) -> (result: Result<(), JustfileError>)
    requires
        old(commands).wf(),
        justfile.wf(),
    ensures
        final(commands).wf(),
        ({
            let asked = match target {
                Some(t) => t@,
                None => justfile@.first,
            };
            match recipe_for(justfile@, asked) {
                Some(recipe) => {
                    &&& result is Ok
                    &&& is_plan(justfile@, recipe.dependencies, plan_of(justfile@, recipe.dependencies))
                    &&& final(commands)@ == (CommandsView {
                        commands: old(commands)@.commands + recipe_commands(
                            justfile@,
                            optional_text(justfile_path),
                            recipe,
                        ),
                        ..old(commands)@
                    })
                },
                None => {
                    &&& result matches Err(JustfileError::RecipeNotFound(name)) && name@ == asked
                    &&& final(commands)@ == old(commands)@
                },
            }
        }),
        ({
            let asked = match target {
                Some(t) => t@,
                None => justfile.first@,
            };
            result is Ok <==> justfile@.recipes.contains_key(asked) || (justfile@.aliases.contains_key(asked)
                && justfile@.recipes.contains_key(justfile@.aliases[asked]))
        }),
{
    let target: &str = match target {
        Some(t) => t,
        None => justfile.first.as_str(),
    };
    let recipe = match justfile.recipe(target) {
        Some(recipe) => recipe,
        None => {
            return Err(JustfileError::RecipeNotFound(target.to_owned()));
        },
    };
    let ghost path = optional_text(justfile_path);
    let ghost added = recipe_commands(justfile@, path, recipe@);
    let ghost had = commands@;
    let args = call_just(justfile_path, recipe.name.as_str());
    let names = names_of(&recipe.dependencies);
    commands.dependent_command(recipe.name.as_str(), args.as_slice(), names.as_slice());
    assert(commands@.commands =~= had.commands + added.take(1));
    let planned = justfile.plan(recipe);
    for i in 0..planned.len()
        invariant
            commands.wf(),
            justfile.wf(),
            path == optional_text(justfile_path),
            added == recipe_commands(justfile@, path, recipe@),
            referred(planned@) == plan_of(justfile@, recipe@.dependencies),
            commands@ == (CommandsView { commands: had.commands + added.take(i + 1), ..had }),
    {
        let ghost earlier = commands@.commands;
        let dependency = planned[i];
        let mut args = call_just(justfile_path, dependency.recipe.as_str());
        let mut arguments = copied(dependency.arguments.as_slice());
        let ghost call = args@;
        args.append(&mut arguments);
        assert(texts(args@) =~= texts(call) + texts(dependency.arguments@));
        let none: Vec<String> = Vec::new();
        let names = match justfile.recipe(dependency.recipe.as_str()) {
            Some(needed) => names_of(&needed.dependencies),
            None => none,
        };
        let name = dependency.name();
        commands.dependent_command(name.as_str(), args.as_slice(), names.as_slice());
        proof {
            assert(referred(planned@)[i as int] == dependency@);
            assert(texts(names@) =~= dependency_names(needs(justfile@, dependency@)));
            assert(added[i + 1] == dependency_command(justfile@, path, dependency@));
            assert(commands@.commands =~= earlier.push(added[i + 1]));
            assert(had.commands + added.take(i + 2) =~= earlier.push(added[i + 1]));
        }
    }
    assert(added.take(added.len() as int) == added);
    Ok(())
}

/// What a `justfile` says is as much as it holds: each recipe under its name,
/// with everything that it depends on and every argument of that, in order, and
/// each alias with what it stands for.
pub proof fn lemma_justfile_says(justfile: Justfile, key: Seq<char>, i: int, k: int)
    ensures
        justfile@.first == justfile.first@,
        justfile@.aliases.contains_key(key) <==> justfile.aliases@.contains_key(key),
        justfile.aliases@.contains_key(key) ==> justfile@.aliases[key] == justfile.aliases@[key].target@,
        justfile@.recipes.contains_key(key) <==> justfile.recipes@.contains_key(key),
        justfile.recipes@.contains_key(key) ==> {
            let (said, held) = (justfile@.recipes[key], justfile.recipes@[key]);
            &&& said.name == held.name@
            &&& said.dependencies.len() == held.dependencies@.len()
            &&& 0 <= i < held.dependencies@.len() ==> {
                let (asked, depended) = (said.dependencies[i], held.dependencies@[i]);
                &&& asked.recipe == depended.recipe@
                &&& asked.arguments.len() == depended.arguments@.len()
                &&& 0 <= k < depended.arguments@.len() ==> asked.arguments[k] == depended.arguments@[k]@
            }
        },
{
}

/// The names of dependencies, and what those referred to say, are as many as
/// these are, each that of its own.
pub proof fn lemma_dependencies_one_for_one(
    dependencies: Seq<Dependency>,
    referred_to: Seq<&Dependency>,
    said: Seq<DependencyView>,
)
    ensures
        dependency_views(dependencies).len() == dependencies.len(),
        forall|i: int|
            0 <= i < dependencies.len() ==> #[trigger] dependency_views(dependencies)[i] == dependencies[i]@,
        referred(referred_to).len() == referred_to.len(),
        forall|i: int| 0 <= i < referred_to.len() ==> #[trigger] referred(referred_to)[i] == referred_to[i]@,
        dependency_names(said).len() == said.len(),
        forall|i: int| 0 <= i < said.len() ==> #[trigger] dependency_names(said)[i] == dependency_name(said[i]),
{
}

} // verus!
