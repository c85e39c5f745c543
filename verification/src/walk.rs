//! The walk through a folder: which directories are entered and which files
//! are found.

use crate::text::{has_text, parts_of, trimmed};
use vstd::multiset::Multiset;
use vstd::prelude::*;

verus! {

/// The names among these parts of an option: in lowercase, without white space
/// at the ends, and without empty ones.
pub open spec fn names_among(parts: Seq<Seq<char>>) -> Seq<Seq<char>>
    decreases parts.len(),
{
    if parts.len() == 0 {
        seq![]
    } else {
        let name = crate::text::lowercase(crate::text::trim(parts.last()));
        if name.len() > 0 {
            names_among(parts.drop_last()).push(name)
        } else {
            names_among(parts.drop_last())
        }
    }
}

/// The names of the directories that an option excludes, separated by commas.
pub fn excluded_names(option: &str) -> (names: Vec<String>)
    ensures
        crate::text::views(names@) == names_among(crate::text::parts(option@, ',')),
{
    let parts = parts_of(option, ',');
    let ghost all = crate::text::views(parts@);
    let mut names: Vec<String> = Vec::new();
    proof {
        assert(crate::text::views(names@) == Seq::<Seq<char>>::empty());
    }
    for i in 0..parts.len()
        invariant
            all == crate::text::views(parts@),
            crate::text::views(names@) == names_among(all.take(i as int)),
    {
        let ghost before = crate::text::views(names@);
        let name = trimmed(&parts[i]).as_str().to_lowercase();
        proof {
            assert(all.take(i + 1).drop_last() == all.take(i as int));
            assert(all.take(i + 1).last() == parts@[i as int]@);
        }
        if !name.as_str().is_empty() {
            names.push(name);
            proof {
                assert(crate::text::views(names@) == before.push(name@));
            }
        }
    }
    proof {
        assert(all.take(parts@.len() as int) == all);
    }
    names
}

/// What an entry of a directory is. A link is told from what it leads to.
#[derive(Debug, Clone, Copy, PartialEq, Eq, Structural)]
pub enum Entry {
    Directory,
    File,
    LinkToDirectory,
    OtherLink,
    Other,
}

/// What is done with an entry.
#[derive(Debug, Clone, Copy, PartialEq, Eq, Structural)]
pub enum Visit {
    /// The directory is entered later.
    Enter,
    /// The file is found.
    Find,
    /// Nothing.
    Skip,
}

/// The directory with this name, where it has one that is text, is excluded.
pub open spec fn is_excluded(name: Option<Seq<char>>, excludes: Seq<Seq<char>>) -> bool {
    match name {
        Some(n) => excludes.contains(crate::text::lowercase(n)),
        None => false,
    }
}

/// What is done with an entry: directories are entered unless their name is
/// excluded, whatever its case; files and links are found; links to directories
/// are not followed.
pub open spec fn visit_of(
    entry: Entry,
    name: Option<Seq<char>>,
    excludes: Seq<Seq<char>>,
) -> Visit {
    match entry {
        Entry::Directory => if is_excluded(name, excludes) {
            Visit::Skip
        } else {
            Visit::Enter
        },
        Entry::File => Visit::Find,
        Entry::OtherLink => Visit::Find,
        Entry::LinkToDirectory => Visit::Skip,
        Entry::Other => Visit::Skip,
    }
}

/// What an optional borrowed text holds.
pub open spec fn optional_text(s: Option<&str>) -> Option<Seq<char>> {
    match s {
        Some(s) => Some(s@),
        None => None,
    }
}

/// What is done with an entry of a directory.
pub fn visit(entry: Entry, name: Option<&str>, excludes: &Vec<String>) -> (v: Visit)
    ensures
        v == visit_of(entry, optional_text(name), crate::text::views(excludes@)),
{
    match entry {
        Entry::Directory => match name {
            Some(n) => if has_text(excludes, n.to_lowercase().as_str()) {
                Visit::Skip
            } else {
                Visit::Enter
            },
            None => Visit::Enter,
        },
        Entry::File => Visit::Find,
        Entry::OtherLink => Visit::Find,
        Entry::LinkToDirectory => Visit::Skip,
        Entry::Other => Visit::Skip,
    }
}

/// The deepest directories that are entered, counted from the root.
pub const MAX_DEPTH: usize = 64;

/// A walk in progress. `P` is what leads to a file or directory.
pub struct Walk<P> {
    /// The directories still to be entered, with their depth; the last is next.
    stack: Vec<(P, usize)>,
    /// The files found so far.
    found: Vec<P>,
    /// The depth of the directory that was entered last.
    depth: usize,
    excludes: Vec<String>,
    /// The names of the directories on the way from the root: to each
    /// directory of the stack, to the one that was entered last, and to each
    /// file found.
    stack_ways: Ghost<Seq<Seq<Option<Seq<char>>>>>,
    way: Ghost<Seq<Option<Seq<char>>>>,
    found_ways: Ghost<Seq<Seq<Option<Seq<char>>>>>,
}

/// No directory on the way is excluded.
pub open spec fn is_open(way: Seq<Option<Seq<char>>>, excludes: Seq<Seq<char>>) -> bool {
    forall|i: int| 0 <= i < way.len() ==> !is_excluded(#[trigger] way[i], excludes)
}

/// The stack without the directories on its top that are too deep.
pub open spec fn within_depth<P>(stack: Seq<(P, usize)>) -> Seq<(P, usize)>
    decreases stack.len(),
{
    if stack.len() > 0 && stack.last().1 > MAX_DEPTH {
        within_depth(stack.drop_last())
    } else {
        stack
    }
}

impl<P> Walk<P> {
    pub closed spec fn stack(&self) -> Seq<(P, usize)> {
        self.stack@
    }

    pub closed spec fn found(&self) -> Seq<P> {
        self.found@
    }

    pub closed spec fn depth(&self) -> usize {
        self.depth
    }

    pub closed spec fn excludes(&self) -> Seq<Seq<char>> {
        crate::text::views(self.excludes@)
    }

    /// The names of the directories on the way to the directory that was
    /// entered last.
    pub closed spec fn way(&self) -> Seq<Option<Seq<char>>> {
        self.way@
    }

    /// The names of the directories on the way to each file found.
    pub closed spec fn found_ways(&self) -> Seq<Seq<Option<Seq<char>>>> {
        self.found_ways@
    }

    /// No way leads through an excluded directory or deeper than the limit.
    pub closed spec fn well_formed(&self) -> bool {
        &&& self.depth <= MAX_DEPTH
        &&& self.way@.len() == self.depth
        &&& is_open(self.way@, self.excludes())
        &&& self.stack_ways@.len() == self.stack@.len()
        &&& forall|i: int|
            0 <= i < self.stack@.len() ==> (#[trigger] self.stack_ways@[i]).len()
                == self.stack@[i].1 && is_open(self.stack_ways@[i], self.excludes())
        &&& self.found_ways@.len() == self.found@.len()
        &&& forall|i: int|
            0 <= i < self.found@.len() ==> (#[trigger] self.found_ways@[i]).len() <= MAX_DEPTH
                && is_open(self.found_ways@[i], self.excludes())
    }

    /// `after` is what becomes of this walk when it enters `directory`: the last
    /// of the stack that is not too deep.
    pub open spec fn enters(self, directory: P, after: Walk<P>) -> bool {
        let left = within_depth(self.stack());
        &&& left.len() > 0
        &&& directory == left.last().0
        &&& after.depth() == left.last().1
        &&& after.stack() == left.drop_last()
        &&& after.found() == self.found()
        &&& after.found_ways() == self.found_ways()
        &&& after.excludes() == self.excludes()
    }

    /// This walk has no directory left to enter, and `after` is what becomes of
    /// it when it is asked for one.
    pub open spec fn ends(self, after: Walk<P>) -> bool {
        &&& within_depth(self.stack()).len() == 0
        &&& after.stack().len() == 0
        &&& after.found() == self.found()
        &&& after.found_ways() == self.found_ways()
        &&& after.excludes() == self.excludes()
    }

    /// `after` is what becomes of this walk when it takes an entry of the
    /// directory that was entered last.
    pub open spec fn takes(
        self,
        path: P,
        entry: Entry,
        name: Option<Seq<char>>,
        after: Walk<P>,
    ) -> bool {
        &&& after.depth() == self.depth()
        &&& after.way() == self.way()
        &&& after.excludes() == self.excludes()
        &&& match visit_of(entry, name, self.excludes()) {
            Visit::Enter => after.stack() == self.stack().push(
                (path, (self.depth() + 1) as usize),
            ) && after.found() == self.found() && after.found_ways() == self.found_ways(),
            Visit::Find => after.stack() == self.stack() && after.found() == self.found().push(path)
                && after.found_ways() == self.found_ways().push(self.way()),
            Visit::Skip => after.stack() == self.stack() && after.found() == self.found()
                && after.found_ways() == self.found_ways(),
        }
    }

    /// A walk that has yet to enter `root`.
    pub fn new(root: P, excludes: Vec<String>) -> (w: Walk<P>)
        ensures
            w.well_formed(),
            w.stack() == seq![(root, 0usize)],
            w.found() == Seq::<P>::empty(),
            w.excludes() == crate::text::views(excludes@),
    {
        let mut stack: Vec<(P, usize)> = Vec::new();
        stack.push((root, 0));
        Walk {
            stack,
            found: Vec::new(),
            depth: 0,
            excludes,
            stack_ways: Ghost(Seq::empty().push(Seq::empty())),
            way: Ghost(Seq::empty()),
            found_ways: Ghost(Seq::empty()),
        }
    }

    /// The directory that is entered next. Directories that are too deep are
    /// passed over.
    pub fn next_directory(&mut self) -> (r: Option<P>)
        requires
            old(self).well_formed(),
        ensures
            final(self).well_formed(),
            match r {
                Some(directory) => old(self).enters(directory, *final(self)),
                None => old(self).ends(*final(self)),
            },
    {
        let ghost start = self.stack@;
        while self.stack.len() > 0
            invariant
                self.well_formed(),
                self.found() == old(self).found(),
                self.found_ways() == old(self).found_ways(),
                self.excludes() == old(self).excludes(),
                within_depth(self.stack@) == within_depth(start),
                start == old(self).stack(),
            decreases self.stack@.len(),
        {
            let ghost before = self.stack@;
            let ghost ways = self.stack_ways@;
            match self.stack.pop() {
                Some((p, depth)) => {
                    proof {
                        assert(self.stack@ == before.drop_last());
                        assert(before.last() == (p, depth));
                    }
                    self.stack_ways = Ghost(ways.drop_last());
                    proof {
                        assert forall|i: int| 0 <= i < self.stack@.len() implies (
                        #[trigger] self.stack_ways@[i]).len() == self.stack@[i].1 && is_open(
                            self.stack_ways@[i],
                            self.excludes(),
                        ) by {
                            assert(self.stack_ways@[i] == ways[i]);
                            assert(self.stack@[i] == before[i]);
                        }
                    }
                    if depth <= MAX_DEPTH {
                        self.depth = depth;
                        self.way = Ghost(ways.last());
                        proof {
                            assert(ways.last() == ways[before.len() - 1]);
                        }
                        return Some(p);
                    }
                },
                None => {},
            }
        }
        None
    }

    /// Takes an entry of the directory that was entered last, with its name
    /// where that is text.
    pub fn take_entry(&mut self, path: P, entry: Entry, name: Option<&str>)
        requires
            old(self).well_formed(),
        ensures
            final(self).well_formed(),
            old(self).takes(path, entry, optional_text(name), *final(self)),
    {
        match visit(entry, name, &self.excludes) {
            Visit::Enter => {
                self.stack.push((path, self.depth + 1));
                let ghost way = self.way@.push(optional_text(name));
                self.stack_ways = Ghost(self.stack_ways@.push(way));
            },
            Visit::Find => {
                self.found.push(path);
                self.found_ways = Ghost(self.found_ways@.push(self.way@));
            },
            Visit::Skip => {},
        }
    }

    /// The files found.
    pub fn into_found(self) -> (files: Vec<P>)
        ensures
            files@ == self.found(),
    {
        self.found
    }

    /// Nothing under an excluded directory is found, nor anything deeper than
    /// the limit.
    pub proof fn law_excluded_subtrees_are_not_indexed(&self, i: int, k: int)
        requires
            self.well_formed(),
            0 <= i < self.found().len(),
            0 <= k < self.found_ways()[i].len(),
        ensures
            !is_excluded(self.found_ways()[i][k], self.excludes()),
            self.found_ways().len() == self.found().len(),
            self.found_ways()[i].len() <= MAX_DEPTH,
    {
    }
}

/// An entry of a directory.
pub struct Listed<P> {
    pub path: P,
    pub entry: Entry,
    pub name: Option<Seq<char>>,
}

/// What the entries of a directory at this depth lead to, where `listing` gives
/// the entries of each directory: the files among them, and what the
/// directories that are entered lead to.
pub open spec fn leads_to<P>(
    listing: spec_fn(P) -> Seq<Listed<P>>,
    excludes: Seq<Seq<char>>,
    items: Seq<Listed<P>>,
    depth: nat,
) -> Multiset<P>
    decreases MAX_DEPTH + 2 - depth, 0nat, items.len(),
{
    if items.len() == 0 {
        Multiset::empty()
    } else {
        let item = items[0];
        let rest = leads_to(listing, excludes, items.drop_first(), depth);
        match visit_of(item.entry, item.name, excludes) {
            Visit::Enter => if depth <= MAX_DEPTH {
                reached(listing, excludes, item.path, depth + 1).add(rest)
            } else {
                rest
            },
            Visit::Find => Multiset::singleton(item.path).add(rest),
            Visit::Skip => rest,
        }
    }
}

/// The files under a directory at this depth that a walk finds.
pub open spec fn reached<P>(
    listing: spec_fn(P) -> Seq<Listed<P>>,
    excludes: Seq<Seq<char>>,
    directory: P,
    depth: nat,
) -> Multiset<P>
    decreases MAX_DEPTH + 2 - depth, 1nat, 0nat,
{
    if depth > MAX_DEPTH {
        Multiset::empty()
    } else {
        leads_to(listing, excludes, listing(directory), depth)
    }
}

/// The files under the directories of a stack that a walk finds.
pub open spec fn reached_from<P>(
    listing: spec_fn(P) -> Seq<Listed<P>>,
    excludes: Seq<Seq<char>>,
    stack: Seq<(P, usize)>,
) -> Multiset<P>
    decreases stack.len(),
{
    if stack.len() == 0 {
        Multiset::empty()
    } else {
        reached_from(listing, excludes, stack.drop_last()).add(
            reached(listing, excludes, stack.last().0, stack.last().1 as nat),
        )
    }
}

/// To enter the next directory changes nothing of what the walk will find: what
/// the stack led to is what the rest of it and the entries of that directory
/// lead to. Where no directory is left to enter, nothing is left to find.
pub proof fn law_entering_loses_nothing<P>(
    listing: spec_fn(P) -> Seq<Listed<P>>,
    excludes: Seq<Seq<char>>,
    stack: Seq<(P, usize)>,
)
    ensures
        ({
            let left = within_depth(stack);
            if left.len() > 0 {
                reached_from(listing, excludes, stack) == reached_from(
                    listing,
                    excludes,
                    left.drop_last(),
                ).add(
                    leads_to(
                        listing,
                        excludes,
                        listing(left.last().0),
                        left.last().1 as nat,
                    ),
                )
            } else {
                reached_from(listing, excludes, stack) == Multiset::<P>::empty()
            }
        }),
    decreases stack.len(),
{
    if stack.len() > 0 && stack.last().1 > MAX_DEPTH {
        law_entering_loses_nothing(listing, excludes, stack.drop_last());
        assert(reached_from(listing, excludes, stack) =~= reached_from(
            listing,
            excludes,
            stack.drop_last(),
        ));
    }
}

/// To take an entry changes nothing of what the walk will find: the files found
/// so far, what the stack leads to and what the entries that are left lead to
/// stay the same together.
pub proof fn law_entry_is_not_lost<P>(
    listing: spec_fn(P) -> Seq<Listed<P>>,
    excludes: Seq<Seq<char>>,
    stack: Seq<(P, usize)>,
    found: Seq<P>,
    depth: usize,
    items: Seq<Listed<P>>,
    next_stack: Seq<(P, usize)>,
    next_found: Seq<P>,
)
    requires
        depth <= MAX_DEPTH,
        items.len() > 0,
        match visit_of(items[0].entry, items[0].name, excludes) {
            Visit::Enter => next_stack == stack.push((items[0].path, (depth + 1) as usize))
                && next_found == found,
            Visit::Find => next_stack == stack && next_found == found.push(items[0].path),
            Visit::Skip => next_stack == stack && next_found == found,
        },
    ensures
        next_found.to_multiset().add(reached_from(listing, excludes, next_stack)).add(
            leads_to(listing, excludes, items.drop_first(), depth as nat),
        ) == found.to_multiset().add(reached_from(listing, excludes, stack)).add(
            leads_to(listing, excludes, items, depth as nat),
        ),
{
    broadcast use vstd::seq_lib::group_to_multiset_ensures;

    let rest = leads_to(listing, excludes, items.drop_first(), depth as nat);
    let before = reached_from(listing, excludes, stack);
    match visit_of(items[0].entry, items[0].name, excludes) {
        Visit::Enter => {
            assert(next_stack.drop_last() == stack);
            assert(next_stack.last() == (items[0].path, (depth + 1) as usize));
        },
        Visit::Find => {
            assert(next_found.to_multiset() =~= found.to_multiset().insert(items[0].path));
        },
        Visit::Skip => {},
    }
    assert(next_found.to_multiset().add(reached_from(listing, excludes, next_stack)).add(rest)
        =~= found.to_multiset().add(before).add(
        leads_to(listing, excludes, items, depth as nat),
    ));
}

proof fn lemma_within_depth<P>(stack: Seq<(P, usize)>)
    ensures
        within_depth(stack).len() > 0 ==> within_depth(stack).last().1 <= MAX_DEPTH,
    decreases stack.len(),
{
    if stack.len() > 0 && stack.last().1 > MAX_DEPTH {
        lemma_within_depth(stack.drop_last());
    }
}

/// A moment of a walk: the walk, and the entries of the directory entered last
/// that it has yet to take.
pub struct Moment<P> {
    pub walk: Walk<P>,
    pub left: Seq<Listed<P>>,
}

/// The second moment comes right after the first: an entry is taken, or, where
/// none is left, the next directory is entered.
pub open spec fn follows<P>(
    listing: spec_fn(P) -> Seq<Listed<P>>,
    now: Moment<P>,
    next: Moment<P>,
) -> bool {
    if now.left.len() > 0 {
        let item = now.left[0];
        now.walk.takes(item.path, item.entry, item.name, next.walk) && next.left
            == now.left.drop_first()
    } else {
        let directory = within_depth(now.walk.stack()).last().0;
        now.walk.enters(directory, next.walk) && next.left == listing(directory)
    }
}

/// The files that a walk has found at a moment and those that it has yet to
/// find.
spec fn in_all<P>(
    listing: spec_fn(P) -> Seq<Listed<P>>,
    excludes: Seq<Seq<char>>,
    m: Moment<P>,
) -> Multiset<P> {
    m.walk.found().to_multiset().add(reached_from(listing, excludes, m.walk.stack())).add(
        leads_to(listing, excludes, m.left, m.walk.depth() as nat),
    )
}

proof fn lemma_nothing_is_lost<P>(
    listing: spec_fn(P) -> Seq<Listed<P>>,
    excludes: Seq<Seq<char>>,
    moments: Seq<Moment<P>>,
)
    requires
        moments.len() > 0,
        moments[0].walk.excludes() == excludes,
        moments[0].left.len() == 0,
        forall|i: int|
            0 <= i < moments.len() - 1 ==> follows(
                listing,
                #[trigger] moments[i],
                moments[i + 1],
            ),
    ensures
        moments.last().walk.excludes() == excludes,
        moments.last().left.len() > 0 ==> moments.last().walk.depth() <= MAX_DEPTH,
        in_all(listing, excludes, moments.last()) == in_all(listing, excludes, moments[0]),
    decreases moments.len(),
{
    if moments.len() > 1 {
        let before = moments.drop_last();
        assert forall|i: int| 0 <= i < before.len() - 1 implies follows(
            listing,
            #[trigger] before[i],
            before[i + 1],
        ) by {
            assert(before[i] == moments[i]);
            assert(before[i + 1] == moments[i + 1]);
        }
        lemma_nothing_is_lost(listing, excludes, before);
        let now = moments[moments.len() - 2];
        let next = moments[moments.len() - 1];
        assert(follows(listing, moments[moments.len() - 2], moments[moments.len() - 2 + 1]));
        assert(before.last() == now);
        if now.left.len() > 0 {
            law_entry_is_not_lost(
                listing,
                excludes,
                now.walk.stack(),
                now.walk.found(),
                now.walk.depth(),
                now.left,
                next.walk.stack(),
                next.walk.found(),
            );
        } else {
            law_entering_loses_nothing(listing, excludes, now.walk.stack());
            lemma_within_depth(now.walk.stack());
            assert(in_all(listing, excludes, next) =~= in_all(listing, excludes, now));
        }
    }
}

/// A whole walk finds each file that can be reached from its root without
/// passing an excluded directory or going deeper than the limit, once for each
/// way that leads to it, and nothing else. The moments are those from the
/// beginning of the walk on; at the last of them no directory is left to enter,
/// and `end` is the walk once it was asked for one.
pub proof fn law_walk_finds_what_is_reached<P>(
    listing: spec_fn(P) -> Seq<Listed<P>>,
    root: P,
    moments: Seq<Moment<P>>,
    end: Walk<P>,
)
    requires
        moments.len() > 0,
        moments[0].walk.stack() == seq![(root, 0usize)],
        moments[0].walk.found() == Seq::<P>::empty(),
        moments[0].left.len() == 0,
        forall|i: int|
            0 <= i < moments.len() - 1 ==> follows(
                listing,
                #[trigger] moments[i],
                moments[i + 1],
            ),
        moments.last().left.len() == 0,
        moments.last().walk.ends(end),
    ensures
        end.found().to_multiset() == reached(
            listing,
            moments[0].walk.excludes(),
            root,
            0,
        ),
{
    broadcast use vstd::seq_lib::group_to_multiset_ensures;

    let excludes = moments[0].walk.excludes();
    let stack = moments[0].walk.stack();
    lemma_nothing_is_lost(listing, excludes, moments);
    law_entering_loses_nothing(listing, excludes, moments.last().walk.stack());
    assert(stack.drop_last() == Seq::<(P, usize)>::empty());
    assert(reached_from(listing, excludes, stack.drop_last()) == Multiset::<P>::empty());
    assert(in_all(listing, excludes, moments[0]) =~= reached(listing, excludes, root, 0));
    assert(in_all(listing, excludes, moments.last())
        =~= moments.last().walk.found().to_multiset());
}

proof fn lemma_name_among(parts: Seq<Seq<char>>, name: Seq<char>)
    ensures
        names_among(parts).contains(name) <==> name.len() > 0 && exists|k: int|
            0 <= k < parts.len() && crate::text::lowercase(
                crate::text::trim(#[trigger] parts[k]),
            ) == name,
    decreases parts.len(),
{
    if parts.len() > 0 {
        let fewer = parts.drop_last();
        lemma_name_among(fewer, name);
        let before = names_among(fewer);
        let all = names_among(parts);
        let last = crate::text::lowercase(crate::text::trim(parts.last()));
        assert(parts.last() == parts[parts.len() - 1]);
        if before.contains(name) {
            let i = choose|i: int| 0 <= i < before.len() && before[i] == name;
            assert(all[i] == name);
            let k = choose|k: int|
                0 <= k < fewer.len() && crate::text::lowercase(
                    crate::text::trim(#[trigger] fewer[k]),
                ) == name;
            assert(parts[k] == fewer[k]);
        }
        if last.len() > 0 {
            assert(all[before.len() as int] == last);
            if all.contains(name) && name != last {
                let i = choose|i: int| 0 <= i < all.len() && all[i] == name;
                assert(before[i] == name);
            }
        }
        if exists|k: int|
            0 <= k < parts.len() && crate::text::lowercase(
                crate::text::trim(#[trigger] parts[k]),
            ) == name {
            let k = choose|k: int|
                0 <= k < parts.len() && crate::text::lowercase(
                    crate::text::trim(#[trigger] parts[k]),
                ) == name;
            if k < fewer.len() {
                assert(fewer[k] == parts[k]);
            }
        }
    }
}

/// A directory is passed over exactly where one of the names that the option
/// lists, separated by commas, is its name, whatever the case of the letters and
/// the white space round the names. Every other directory is entered.
pub proof fn law_listed_directories_are_passed_over(option: Seq<char>, name: Seq<char>)
    requires
        crate::text::lowercase(name).len() > 0,
    ensures
        ({
            let excludes = names_among(crate::text::parts(option, ','));
            let listed = exists|k: int|
                0 <= k < crate::text::parts(option, ',').len() && crate::text::lowercase(
                    crate::text::trim(#[trigger] crate::text::parts(option, ',')[k]),
                ) == crate::text::lowercase(name);
            &&& listed ==> visit_of(Entry::Directory, Some(name), excludes) == Visit::Skip
            &&& !listed ==> visit_of(Entry::Directory, Some(name), excludes) == Visit::Enter
        }),
{
    lemma_name_among(crate::text::parts(option, ','), crate::text::lowercase(name));
}

/// Files are found whatever their name, and so are links other than those to
/// directories, which are not followed; a directory whose name is not text is
/// entered. Names that differ only in the case of ASCII letters are treated alike.
pub proof fn law_files_are_found(
    name: Option<Seq<char>>,
    a: Seq<char>,
    b: Seq<char>,
    excludes: Seq<Seq<char>>,
)
    requires
        crate::text::all_ascii(a),
        crate::text::all_ascii(b),
        crate::text::same_ignoring_ascii_case(a, b),
    ensures
        visit_of(Entry::File, name, excludes) == Visit::Find,
        visit_of(Entry::OtherLink, name, excludes) == Visit::Find,
        visit_of(Entry::LinkToDirectory, name, excludes) == Visit::Skip,
        visit_of(Entry::Other, name, excludes) == Visit::Skip,
        visit_of(Entry::Directory, None, excludes) == Visit::Enter,
        visit_of(Entry::Directory, Some(a), excludes) == visit_of(
            Entry::Directory,
            Some(b),
            excludes,
        ),
{
}

/// In a directory that holds only files, all of them are found, once each; a
/// directory in it adds what lies under it, unless it is excluded, as long as it is
/// not deeper than 64 directories below the root.
pub proof fn law_reached_files<P>(
    listing: spec_fn(P) -> Seq<Listed<P>>,
    excludes: Seq<Seq<char>>,
    before: Seq<Listed<P>>,
    item: Listed<P>,
    depth: nat,
)
    requires
        depth <= 64,
    ensures
        ({
            let all = leads_to(listing, excludes, seq![item] + before, depth);
            let rest = leads_to(listing, excludes, before, depth);
            &&& item.entry == Entry::File || item.entry == Entry::OtherLink ==> all == rest.insert(
                item.path,
            )
            &&& item.entry == Entry::Directory && (item.name matches Some(n) ==> !excludes.contains(
                crate::text::lowercase(n),
            )) && depth < 64 ==> all == leads_to(listing, excludes, listing(item.path), depth + 1)
                .add(rest)
            &&& item.entry == Entry::Directory && (item.name matches Some(n) && excludes.contains(
                crate::text::lowercase(n),
            )) ==> all == rest
            &&& item.entry == Entry::Directory && depth == 64 ==> all == rest
            &&& item.entry == Entry::LinkToDirectory || item.entry == Entry::Other ==> all == rest
        }),
        leads_to(listing, excludes, seq![], depth) == Multiset::<P>::empty(),
{
    let items = seq![item] + before;
    assert(items[0] == item);
    assert(items.drop_first() =~= before);
    let rest = leads_to(listing, excludes, before, depth);
    assert(Multiset::singleton(item.path).add(rest) =~= rest.insert(item.path));
    assert(Multiset::<P>::empty().add(rest) =~= rest);
    assert(MAX_DEPTH == 64);
    let deeper = reached(listing, excludes, item.path, depth + 1);
    if depth == 64 {
        assert(deeper == Multiset::<P>::empty());
    } else {
        assert(deeper == leads_to(listing, excludes, listing(item.path), depth + 1));
    }
    match visit_of(item.entry, item.name, excludes) {
        Visit::Enter => {
            assert(leads_to(listing, excludes, items, depth) == deeper.add(rest));
        },
        Visit::Find => {
            assert(leads_to(listing, excludes, items, depth) == Multiset::singleton(item.path).add(
                rest,
            ));
        },
        Visit::Skip => {
            assert(leads_to(listing, excludes, items, depth) == rest);
        },
    }
}

} // verus!
