//! The table of named sources and of the groups they belong to.
use std::collections::HashMap;
use vstd::prelude::*;
use vstd::std_specs::iter::IteratorSpec;
use vstd::string::*;
use crate::source::{
    NameView, SrcId, SrcName, is_src_code, name_views, src_code, src_code_is_injective,
};

verus! {

/// The mathematical model of a [`SourceTable`].
#[verifier::ext_equal]
pub struct SourceView {
    /// The source that stands for each group.
    pub groups: Map<Seq<char>, SrcId>,
    /// The names under each source, oldest first.
    pub names: Map<SrcId, Seq<NameView>>,
    pub next_mat_id: u16,
    pub next_surf_id: u16,
    pub next_matsurf_id: u16,
    pub next_light_id: u16,
}

impl SourceView {
    /// The table of a new ledger. Identifiers of surfaces with a material are handed out
    /// downwards, all others upwards.
    pub open spec fn initial() -> SourceView {
        SourceView {
            groups: Map::empty(),
            names: Map::empty(),
            next_mat_id: 0,
            next_surf_id: 0,
            next_matsurf_id: u16::MAX,
            next_light_id: 0,
        }
    }

    pub open spec fn names_of(self, id: SrcId) -> Seq<NameView> {
        if self.names.contains_key(id) {
            self.names[id]
        } else {
            Seq::empty()
        }
    }

    /// The table after `name` was added under `id`.
    pub open spec fn with_name(self, id: SrcId, name: NameView) -> SourceView {
        SourceView { names: self.names.insert(id, self.names_of(id).push(name)), ..self }
    }

    /// The table after the names under `from` were moved to `to`.
    pub open spec fn with_moved_names(self, from: SrcId, to: SrcId) -> SourceView {
        SourceView { names: self.names.remove(from).insert(to, self.names[from]), ..self }
    }

    pub open spec fn with_group(self, grp: Seq<char>, id: SrcId) -> SourceView {
        SourceView { groups: self.groups.insert(grp, id), ..self }
    }

    pub open spec fn with_next_surf(self) -> SourceView {
        SourceView { next_surf_id: (self.next_surf_id + 1) as u16, ..self }
    }

    pub open spec fn with_next_matsurf(self) -> SourceView {
        SourceView { next_matsurf_id: (self.next_matsurf_id - 1) as u16, ..self }
    }

    /// The source of a group, where the group has one.
    pub open spec fn group(self, grp: Option<Seq<char>>) -> Option<SrcId> {
        match grp {
            Some(g) if self.groups.contains_key(g) => Some(self.groups[g]),
            _ => None,
        }
    }

    /// A light can be added: there is a free identifier for it, which has no names yet.
    pub open spec fn accepts_light(self) -> bool {
        &&& self.next_light_id < u16::MAX
        &&& !self.names.contains_key(SrcId::Light(self.next_light_id))
    }

    pub open spec fn with_light(self, name: Seq<char>) -> SourceView {
        SourceView {
            next_light_id: (self.next_light_id + 1) as u16,
            ..self.with_name(SrcId::Light(self.next_light_id), NameView::Light(name))
        }
    }

    /// A material can be added: there is an identifier for it.
    pub open spec fn accepts_mat(self) -> bool {
        self.next_mat_id < u16::MAX
    }

    pub open spec fn with_mat(self, name: Seq<char>) -> SourceView {
        SourceView {
            next_mat_id: (self.next_mat_id + 1) as u16,
            ..self.with_name(SrcId::Mat(self.next_mat_id), NameView::Mat(name))
        }
    }

    /// The names of `id` can be moved to a source of the same kind that gets the identifier of a
    /// new surface with a material.
    pub open spec fn can_merge(self, id: SrcId) -> bool {
        self.next_matsurf_id > 0 && self.names.contains_key(id)
    }

    /// A surface can be added to the group: the group is new, or stands for something with a
    /// surface, or for a material that can become part of one.
    pub open spec fn accepts_surf(self, grp: Option<Seq<char>>) -> bool {
        match self.group(grp) {
            None => self.next_surf_id < u16::MAX,
            Some(SrcId::Surf(_)) => true,
            Some(SrcId::MatSurf(_)) => true,
            Some(SrcId::Mat(m)) => self.can_merge(SrcId::Mat(m)),
            Some(_) => false,
        }
    }

    /// The source that a surface of the group belongs to.
    pub open spec fn surf_id(self, grp: Option<Seq<char>>) -> SrcId {
        match self.group(grp) {
            None => SrcId::Surf(self.next_surf_id),
            Some(SrcId::Mat(_)) => SrcId::MatSurf(self.next_matsurf_id),
            Some(id) => id,
        }
    }

    /// The table after room was made for a surface of the group.
    pub open spec fn with_surf_room(self, grp: Option<Seq<char>>) -> SourceView {
        match self.group(grp) {
            None => match grp {
                Some(g) => self.with_next_surf().with_group(g, SrcId::Surf(self.next_surf_id)),
                None => self.with_next_surf(),
            },
            Some(SrcId::Mat(m)) => self.with_next_matsurf().with_moved_names(
                SrcId::Mat(m),
                SrcId::Mat(self.next_matsurf_id),
            ),
            Some(_) => self,
        }
    }

    pub open spec fn with_surf(self, name: Seq<char>, grp: Option<Seq<char>>) -> SourceView {
        self.with_surf_room(grp).with_name(self.surf_id(grp), NameView::Surf(name))
    }

    /// A surface with a material can be added to the group: the group is new and there is an
    /// identifier, or it stands for such a surface, or for a surface or a material that can
    /// become one.
    pub open spec fn accepts_matsurf(self, grp: Option<Seq<char>>) -> bool {
        match self.group(grp) {
            None => self.next_matsurf_id > 0,
            Some(SrcId::MatSurf(_)) => true,
            Some(SrcId::Surf(s)) => self.can_merge(SrcId::Surf(s)),
            Some(SrcId::Mat(m)) => self.can_merge(SrcId::Mat(m)),
            Some(_) => false,
        }
    }

    /// The source that a surface with a material belongs to.
    pub open spec fn matsurf_id(self, grp: Option<Seq<char>>) -> SrcId {
        match self.group(grp) {
            Some(SrcId::MatSurf(n)) => SrcId::MatSurf(n),
            _ => SrcId::MatSurf(self.next_matsurf_id),
        }
    }

    /// The table after room was made for a surface with a material of the group.
    pub open spec fn with_matsurf_room(self, grp: Option<Seq<char>>) -> SourceView {
        match self.group(grp) {
            None => match grp {
                Some(g) => self.with_next_matsurf().with_group(
                    g,
                    SrcId::MatSurf(self.next_matsurf_id),
                ),
                None => self.with_next_matsurf(),
            },
            Some(SrcId::Surf(s)) => self.with_next_matsurf().with_moved_names(
                SrcId::Surf(s),
                SrcId::Surf(self.next_matsurf_id),
            ),
            Some(SrcId::Mat(m)) => self.with_next_matsurf().with_moved_names(
                SrcId::Mat(m),
                SrcId::Mat(self.next_matsurf_id),
            ),
            Some(_) => self,
        }
    }

    pub open spec fn with_matsurf(
        self,
        obj_name: Seq<char>,
        mat_name: Seq<char>,
        grp: Option<Seq<char>>,
    ) -> SourceView {
        self.with_matsurf_room(grp).with_name(
            self.matsurf_id(grp),
            NameView::MatSurf(obj_name + seq![':'] + mat_name),
        )
    }
}

/// No group has two entries.
pub open spec fn distinct_groups(entries: Seq<(String, SrcId)>) -> bool {
    forall|i: int, j: int|
        0 <= i < j < entries.len() ==> (#[trigger] entries[i]).0@ != (#[trigger] entries[j]).0@
}

/// The source of each group of a list of entries.
pub open spec fn group_map(entries: Seq<(String, SrcId)>) -> Map<Seq<char>, SrcId>
    decreases entries.len(),
{
    if entries.len() == 0 {
        Map::empty()
    } else {
        group_map(entries.drop_last()).insert(entries.last().0@, entries.last().1)
    }
}

pub proof fn lemma_group_keys(entries: Seq<(String, SrcId)>, g: Seq<char>)
    ensures
        group_map(entries).contains_key(g) <==> exists|i: int|
            0 <= i < entries.len() && (#[trigger] entries[i]).0@ == g,
    decreases entries.len(),
{
    if entries.len() > 0 {
        let rest = entries.drop_last();
        lemma_group_keys(rest, g);
        if group_map(rest).contains_key(g) {
            let i = choose|i: int| 0 <= i < rest.len() && (#[trigger] rest[i]).0@ == g;
            assert(entries[i].0@ == g);
        }
        if entries.last().0@ == g {
            assert(entries[entries.len() - 1].0@ == g);
        }
        if exists|i: int| 0 <= i < entries.len() && (#[trigger] entries[i]).0@ == g {
            let i = choose|i: int| 0 <= i < entries.len() && (#[trigger] entries[i]).0@ == g;
            if i < rest.len() {
                assert(rest[i].0@ == g);
            }
        }
    }
}

proof fn lemma_group_removed(entries: Seq<(String, SrcId)>, k: int)
    requires
        distinct_groups(entries),
        0 <= k < entries.len(),
    ensures
        distinct_groups(entries.remove(k)),
        group_map(entries.remove(k)) == group_map(entries).remove(entries[k].0@),
    decreases entries.len(),
{
    let rest = entries.drop_last();
    let less = entries.remove(k);
    let g = entries[k].0@;
    assert(distinct_groups(rest)) by {
        assert forall|i: int, j: int| 0 <= i < j < rest.len() implies (#[trigger] rest[i]).0@ != (
        #[trigger] rest[j]).0@ by {
            assert(entries[i].0@ != entries[j].0@);
        }
    }
    assert(distinct_groups(less)) by {
        assert forall|i: int, j: int| 0 <= i < j < less.len() implies (#[trigger] less[i]).0@ != (
        #[trigger] less[j]).0@ by {
            let x = if i < k {
                i
            } else {
                i + 1
            };
            let y = if j < k {
                j
            } else {
                j + 1
            };
            assert(entries[x].0@ != entries[y].0@);
        }
    }
    if k == rest.len() {
        assert(less =~= rest);
        lemma_group_keys(rest, g);
        if group_map(rest).contains_key(g) {
            let i = choose|i: int| 0 <= i < rest.len() && (#[trigger] rest[i]).0@ == g;
            assert(entries[i].0@ != entries[k].0@);
        }
        assert(group_map(rest) =~= group_map(entries).remove(g));
    } else {
        lemma_group_removed(rest, k);
        assert(less.drop_last() =~= rest.remove(k));
        assert(less.last() == entries.last());
        assert(entries[k].0@ != entries[entries.len() - 1].0@);
        assert(group_map(less) =~= group_map(entries).remove(g));
    }
}

/// The sources that stand for groups.
#[derive(Debug, PartialEq, Eq)]
pub struct GroupMap {
    pub entries: Vec<(String, SrcId)>,
}

impl View for GroupMap {
    type V = Map<Seq<char>, SrcId>;

    open spec fn view(&self) -> Map<Seq<char>, SrcId> {
        group_map(self.entries@)
    }
}

impl GroupMap {
    pub open spec fn wf(&self) -> bool {
        distinct_groups(self.entries@)
    }

    pub fn new() -> (groups: GroupMap)
        ensures
            groups@ == Map::<Seq<char>, SrcId>::empty(),
            groups.wf(),
    {
        GroupMap { entries: Vec::new() }
    }

    fn find(&self, grp: &String) -> (index: Option<usize>)
        ensures
            match index {
                Some(k) => k < self.entries@.len() && self.entries@[k as int].0@ == grp@,
                None => forall|k: int|
                    0 <= k < self.entries@.len() ==> (#[trigger] self.entries@[k]).0@ != grp@,
            },
    {
        let mut k: usize = 0;
        while k < self.entries.len()
            invariant
                k <= self.entries@.len(),
                forall|j: int| 0 <= j < k ==> (#[trigger] self.entries@[j]).0@ != grp@,
            decreases self.entries.len() - k,
        {
            if self.entries[k].0 == *grp {
                return Some(k);
            }
            k += 1;
        }
        None
    }

    pub fn get(&self, grp: &String) -> (id: Option<SrcId>)
        requires
            self.wf(),
        ensures
            id == self@.get(grp@),
    {
        proof {
            lemma_group_keys(self.entries@, grp@);
        }
        match self.find(grp) {
            Some(k) => {
                proof {
                    lemma_group_entry(self.entries@, k as int);
                }
                Some(self.entries[k].1)
            },
            None => None,
        }
    }

    /// Lets `id` stand for a group, in place of a source that may have stood for it.
    pub fn insert(&mut self, grp: String, id: SrcId)
        requires
            old(self).wf(),
        ensures
            final(self)@ == old(self)@.insert(grp@, id),
            final(self).wf(),
    {
        let ghost before = self.entries@;
        if let Some(k) = self.find(&grp) {
            let _ = self.entries.remove(k);
            proof {
                lemma_group_removed(before, k as int);
                lemma_group_keys(self.entries@, grp@);
            }
        }
        let ghost others = self.entries@;
        assert forall|i: int| 0 <= i < others.len() implies (#[trigger] others[i]).0@ != grp@ by {
            if others != before {
                assert(!group_map(others).contains_key(grp@));
            }
        }
        self.entries.push((grp, id));
        assert(self.entries@.drop_last() == others);
        assert(self@ =~= group_map(before).insert(grp@, id));
    }
}

pub proof fn lemma_group_entry(entries: Seq<(String, SrcId)>, k: int)
    requires
        distinct_groups(entries),
        0 <= k < entries.len(),
    ensures
        group_map(entries).contains_key(entries[k].0@),
        group_map(entries)[entries[k].0@] == entries[k].1,
    decreases entries.len(),
{
    let rest = entries.drop_last();
    if k < rest.len() {
        assert forall|i: int, j: int| 0 <= i < j < rest.len() implies (#[trigger] rest[i]).0@ != (
        #[trigger] rest[j]).0@ by {
            assert(entries[i].0@ != entries[j].0@);
        }
        lemma_group_entry(rest, k);
        assert(entries[k].0@ != entries[entries.len() - 1].0@);
    }
}

impl Clone for GroupMap {
    fn clone(&self) -> (copy: GroupMap)
        ensures
            copy@ == self@,
            self.wf() ==> copy.wf(),
    {
        let mut entries: Vec<(String, SrcId)> = Vec::new();
        let mut k: usize = 0;
        while k < self.entries.len()
            invariant
                k <= self.entries@.len(),
                entries@.len() == k,
                forall|j: int| 0 <= j < k ==> (#[trigger] entries@[j]).0@ == self.entries@[j].0@,
                group_map(entries@) == group_map(self.entries@.take(k as int)),
            decreases self.entries.len() - k,
        {
            let ghost before = entries@;
            entries.push((self.entries[k].0.clone(), self.entries[k].1));
            proof {
                assert(entries@.drop_last() == before);
                let part = self.entries@.take(k + 1);
                assert(part.drop_last() == self.entries@.take(k as int));
                assert(part.last() == self.entries@[k as int]);
            }
            k += 1;
        }
        assert(self.entries@.take(k as int) == self.entries@);
        GroupMap { entries }
    }
}

/// Which ranges of identifiers have run into that of surfaces with a material.
#[derive(Clone, Copy, PartialEq, Eq, Structural, Debug)]
pub struct IdOverlap {
    pub mat: bool,
    pub surf: bool,
}

/// The named sources of a ledger.
#[derive(Debug)]
pub struct SourceTable {
    pub grps: GroupMap,
    /// The names under each source, by the code of the source.
    pub src_map: HashMap<u32, Vec<SrcName>>,
    pub next_mat_id: u16,
    pub next_surf_id: u16,
    pub next_matsurf_id: u16,
    pub next_light_id: u16,
}

pub open spec fn names_by_id(src_map: Map<u32, Vec<SrcName>>) -> Map<SrcId, Seq<NameView>> {
    Map::new(
        |id: SrcId| src_map.contains_key(src_code(id)),
        |id: SrcId| name_views(src_map[src_code(id)]@),
    )
}

impl View for SourceTable {
    type V = SourceView;

    open spec fn view(&self) -> SourceView {
        SourceView {
            groups: self.grps@,
            names: names_by_id(self.src_map@),
            next_mat_id: self.next_mat_id,
            next_surf_id: self.next_surf_id,
            next_matsurf_id: self.next_matsurf_id,
            next_light_id: self.next_light_id,
        }
    }
}

proof fn lemma_names_insert(m: Map<u32, Vec<SrcName>>, id: SrcId, list: Vec<SrcName>)
    ensures
        names_by_id(m.insert(src_code(id), list)) == names_by_id(m).insert(id, name_views(list@)),
{
    assert forall|x: SrcId| src_code(x) == #[trigger] src_code(id) implies x == id by {
        src_code_is_injective(x, id);
    }
    assert forall|x: SrcId| #[trigger] src_code(x) == src_code(id) implies x == id by {
        src_code_is_injective(x, id);
    }
    assert(names_by_id(m.insert(src_code(id), list)) =~= names_by_id(m).insert(
        id,
        name_views(list@),
    ));
}

proof fn lemma_names_remove(m: Map<u32, Vec<SrcName>>, id: SrcId)
    ensures
        names_by_id(m.remove(src_code(id))) == names_by_id(m).remove(id),
{
    assert forall|x: SrcId| #[trigger] src_code(x) == src_code(id) implies x == id by {
        src_code_is_injective(x, id);
    }
    assert(names_by_id(m.remove(src_code(id))) =~= names_by_id(m).remove(id));
}

impl SourceTable {
    /// Every key of the map of names is the code of a source, and no group has two sources.
    pub open spec fn wf(&self) -> bool {
        &&& self.grps.wf()
        &&& forall|code: u32| #[trigger] self.src_map@.contains_key(code) ==> is_src_code(code)
    }

    pub fn new() -> (table: SourceTable)
        ensures
            table@ == SourceView::initial(),
            table.wf(),
    {
        let table = SourceTable {
            grps: GroupMap::new(),
            src_map: HashMap::new(),
            next_mat_id: 0,
            next_surf_id: 0,
            next_matsurf_id: u16::MAX,
            next_light_id: 0,
        };
        assert(table@ =~= SourceView::initial());
        table
    }

    /// The names under a source, oldest first.
    pub fn names(&self, id: SrcId) -> (names: Option<&Vec<SrcName>>)
        ensures
            match names {
                Some(list) => self@.names.contains_key(id) && name_views(list@) == self@.names[id],
                None => !self@.names.contains_key(id),
            },
    {
        self.src_map.get(&id.code())
    }

    fn add_name(&mut self, id: SrcId, name: SrcName)
        requires
            old(self).wf(),
        ensures
            final(self)@ == old(self)@.with_name(id, name@),
            final(self).wf(),
    {
        let code = id.code();
        let mut list = match self.src_map.remove(&code) {
            Some(list) => list,
            None => Vec::new(),
        };
        let ghost before = list@;
        list.push(name);
        self.src_map.insert(code, list);
        proof {
            src_code_is_injective(id, id);
            assert(name_views(before) =~= old(self)@.names_of(id));
            assert(name_views(list@) =~= name_views(before).push(name@));
            lemma_names_insert(old(self).src_map@.remove(code), id, list);
            lemma_names_remove(old(self).src_map@, id);
            assert(final(self)@.names =~= old(self)@.with_name(id, name@).names);
        }
    }

    fn move_names(&mut self, from: SrcId, to: SrcId)
        requires
            old(self).wf(),
            old(self)@.names.contains_key(from),
        ensures
            final(self)@ == old(self)@.with_moved_names(from, to),
            final(self).wf(),
    {
        let list = self.src_map.remove(&from.code()).unwrap();
        self.src_map.insert(to.code(), list);
        proof {
            src_code_is_injective(to, to);
            lemma_names_remove(old(self).src_map@, from);
            lemma_names_insert(old(self).src_map@.remove(src_code(from)), to, list);
        }
    }

    /// Whether identifiers of materials or surfaces have run into those of surfaces with a
    /// material.
    pub fn check_ids(&self) -> (overlap: IdOverlap)
        ensures
            overlap.mat == (self@.next_mat_id >= self@.next_matsurf_id),
            overlap.surf == (self@.next_surf_id >= self@.next_matsurf_id),
    {
        IdOverlap {
            mat: self.next_mat_id >= self.next_matsurf_id,
            surf: self.next_surf_id >= self.next_matsurf_id,
        }
    }

    /// The source of a group, where the group has one.
    fn group(&self, grp: &Option<String>) -> (id: Option<SrcId>)
        requires
            self.wf(),
        ensures
            id == self@.group(text_of(*grp)),
    {
        match grp {
            Some(name) => self.grps.get(name),
            None => None,
        }
    }

    fn can_merge(&self, id: SrcId) -> (can: bool)
        ensures
            can == self@.can_merge(id),
    {
        self.next_matsurf_id > 0 && self.names(id).is_some()
    }

    /// Whether a light can be added.
    pub fn accepts_light(&self) -> (accepts: bool)
        ensures
            accepts == self@.accepts_light(),
    {
        self.next_light_id < u16::MAX && self.names(SrcId::Light(self.next_light_id)).is_none()
    }

    /// Whether a material can be added.
    pub fn accepts_mat(&self) -> (accepts: bool)
        ensures
            accepts == self@.accepts_mat(),
    {
        self.next_mat_id < u16::MAX
    }

    /// Whether a surface can be added to the group.
    pub fn accepts_surf(&self, grp: &Option<String>) -> (accepts: bool)
        requires
            self.wf(),
        ensures
            accepts == self@.accepts_surf(text_of(*grp)),
    {
        match self.group(grp) {
            None => self.next_surf_id < u16::MAX,
            Some(SrcId::Surf(_)) => true,
            Some(SrcId::MatSurf(_)) => true,
            Some(SrcId::Mat(m)) => self.can_merge(SrcId::Mat(m)),
            Some(_) => false,
        }
    }

    /// Whether a surface with a material can be added to the group.
    pub fn accepts_matsurf(&self, grp: &Option<String>) -> (accepts: bool)
        requires
            self.wf(),
        ensures
            accepts == self@.accepts_matsurf(text_of(*grp)),
    {
        match self.group(grp) {
            None => self.next_matsurf_id > 0,
            Some(SrcId::MatSurf(_)) => true,
            Some(SrcId::Surf(s)) => self.can_merge(SrcId::Surf(s)),
            Some(SrcId::Mat(m)) => self.can_merge(SrcId::Mat(m)),
            Some(_) => false,
        }
    }

    pub fn with_light(&mut self, light_name: String) -> (id: SrcId)
        requires
            old(self).wf(),
            old(self)@.accepts_light(),
        ensures
            final(self)@ == old(self)@.with_light(light_name@),
            id == SrcId::Light(old(self)@.next_light_id),
            final(self).wf(),
    {
        let light_id = SrcId::Light(self.next_light_id);
        self.next_light_id += 1;
        self.add_name(light_id, SrcName::Light(light_name));
        light_id
    }

    pub fn with_mat(&mut self, mat_name: String) -> (id: SrcId)
        requires
            old(self).wf(),
            old(self)@.accepts_mat(),
        ensures
            final(self)@ == old(self)@.with_mat(mat_name@),
            id == SrcId::Mat(old(self)@.next_mat_id),
            final(self).wf(),
    {
        let mat_id = SrcId::Mat(self.next_mat_id);
        self.next_mat_id += 1;
        self.add_name(mat_id, SrcName::Mat(mat_name));
        mat_id
    }

    pub fn with_surf(&mut self, obj_name: String, grp: Option<String>) -> (id: SrcId)
        requires
            old(self).wf(),
            old(self)@.accepts_surf(text_of(grp)),
        ensures
            final(self)@ == old(self)@.with_surf(obj_name@, text_of(grp)),
            id == old(self)@.surf_id(text_of(grp)),
            final(self).wf(),
    {
        let id = match grp {
            Some(name) => match self.grps.get(&name) {
                Some(SrcId::Mat(m)) => {
                    let matsurf_id = self.next_matsurf_id;
                    self.next_matsurf_id -= 1;
                    self.move_names(SrcId::Mat(m), SrcId::Mat(matsurf_id));
                    SrcId::MatSurf(matsurf_id)
                },
                Some(id) => id,
                None => {
                    let surf_id = SrcId::Surf(self.next_surf_id);
                    self.next_surf_id += 1;
                    self.grps.insert(name, surf_id);
                    surf_id
                },
            },
            None => {
                let surf_id = SrcId::Surf(self.next_surf_id);
                self.next_surf_id += 1;
                surf_id
            },
        };
        self.add_name(id, SrcName::Surf(obj_name));
        id
    }

    pub fn with_matsurf(
        &mut self,
        obj_name: String,
        mat_name: String,
        grp: Option<String>,
    ) -> (id: SrcId)
        requires
            old(self).wf(),
            old(self)@.accepts_matsurf(text_of(grp)),
        ensures
            final(self)@ == old(self)@.with_matsurf(obj_name@, mat_name@, text_of(grp)),
            id == old(self)@.matsurf_id(text_of(grp)),
            final(self).wf(),
    {
        let id = match grp {
            Some(name) => match self.grps.get(&name) {
                Some(SrcId::MatSurf(n)) => SrcId::MatSurf(n),
                Some(from) => {
                    let matsurf_id = self.next_matsurf_id;
                    self.next_matsurf_id -= 1;
                    let to = match from {
                        SrcId::Surf(_) => SrcId::Surf(matsurf_id),
                        _ => SrcId::Mat(matsurf_id),
                    };
                    self.move_names(from, to);
                    SrcId::MatSurf(matsurf_id)
                },
                None => {
                    let matsurf_id = SrcId::MatSurf(self.next_matsurf_id);
                    self.next_matsurf_id -= 1;
                    self.grps.insert(name, matsurf_id);
                    matsurf_id
                },
            },
            None => {
                let matsurf_id = SrcId::MatSurf(self.next_matsurf_id);
                self.next_matsurf_id -= 1;
                matsurf_id
            },
        };
        let mut matsurf_name = obj_name;
        matsurf_name.append(":");
        matsurf_name.append(mat_name.as_str());
        proof {
            reveal_strlit(":");
            assert(":"@ =~= seq![':']);
        }
        self.add_name(id, SrcName::MatSurf(matsurf_name));
        id
    }
}

impl Clone for SourceTable {
    fn clone(&self) -> (copy: SourceTable)
        ensures
            copy@ == self@,
            self.wf() ==> copy.wf(),
    {
        SourceTable {
            grps: self.grps.clone(),
            src_map: self.src_map.clone(),
            next_mat_id: self.next_mat_id,
            next_surf_id: self.next_surf_id,
            next_matsurf_id: self.next_matsurf_id,
            next_light_id: self.next_light_id,
        }
    }
}

/// No name has two entries.
pub open spec fn dict_distinct(dict: Seq<(SrcName, SrcId)>) -> bool {
    forall|i: int, j: int|
        0 <= i < j < dict.len() ==> (#[trigger] dict[i]).0@ != (#[trigger] dict[j]).0@
}

/// Every entry leads from a name to a source that has the name.
pub open spec fn dict_sound(dict: Seq<(SrcName, SrcId)>, names: Map<SrcId, Seq<NameView>>) -> bool {
    forall|i: int|
        0 <= i < dict.len() ==> {
            &&& names.contains_key((#[trigger] dict[i]).1)
            &&& names[dict[i].1].contains(dict[i].0@)
        }
}

pub open spec fn dict_has(dict: Seq<(SrcName, SrcId)>, name: NameView) -> bool {
    exists|i: int| 0 <= i < dict.len() && (#[trigger] dict[i]).0@ == name
}

/// Enters a name, in place of an entry that it may have.
fn enter_name(dict: &mut Vec<(SrcName, SrcId)>, name: &SrcName, id: SrcId, Ghost(names): Ghost<
    Map<SrcId, Seq<NameView>>,
>)
    requires
        dict_distinct(old(dict)@),
        dict_sound(old(dict)@, names),
        names.contains_key(id),
        names[id].contains(name@),
    ensures
        dict_distinct(final(dict)@),
        dict_sound(final(dict)@, names),
        dict_has(final(dict)@, name@),
        forall|x: NameView| #[trigger] dict_has(old(dict)@, x) ==> dict_has(final(dict)@, x),
{
    let ghost before = dict@;
    let mut k: usize = 0;
    while k < dict.len()
        invariant
            k <= dict@.len(),
            dict@ == before,
            dict@ == old(dict)@,
            dict_distinct(before),
            dict_sound(before, names),
            names.contains_key(id),
            names[id].contains(name@),
            forall|j: int| 0 <= j < k ==> (#[trigger] before[j]).0@ != name@,
        decreases dict.len() - k,
    {
        if dict[k].0.same(name) {
            dict.set(k, (name.clone(), id));
            proof {
                assert(dict@[k as int].0@ == name@);
                assert forall|x: NameView| #[trigger] dict_has(before, x) implies dict_has(
                    dict@,
                    x,
                ) by {
                    let i = choose|i: int| 0 <= i < before.len() && (#[trigger] before[i]).0@ == x;
                    assert(dict@[i].0@ == x);
                }
            }
            return;
        }
        k += 1;
    }
    dict.push((name.clone(), id));
    proof {
        assert(dict@[before.len() as int].0@ == name@);
        assert forall|x: NameView| #[trigger] dict_has(before, x) implies dict_has(dict@, x) by {
            let i = choose|i: int| 0 <= i < before.len() && (#[trigger] before[i]).0@ == x;
            assert(dict@[i].0@ == x);
        }
    }
}

impl SourceTable {
    /// The source of each name. A name that several sources share leads to one of them.
    pub fn get_src_dict(&self) -> (dict: Vec<(SrcName, SrcId)>)
        requires
            self.wf(),
        ensures
            dict_distinct(dict@),
            dict_sound(dict@, self@.names),
            forall|id: SrcId, k: int|
                self@.names.contains_key(id) && 0 <= k < self@.names[id].len() ==> dict_has(
                    dict@,
                    #[trigger] self@.names[id][k],
                ),
    {
        let mut dict: Vec<(SrcName, SrcId)> = Vec::new();
        let ghost entries = self.src_map.iter().remaining();
        for entry in it: self.src_map.iter()
            invariant
                self.wf(),
                it.seq() == entries,
                dict_distinct(dict@),
                dict_sound(dict@, self@.names),
                forall|i: int, k: int|
                    0 <= i < it.index() && 0 <= k < entries[i].1@.len() ==> dict_has(
                        dict@,
                        (#[trigger] entries[i].1@[k])@,
                    ),
        {
            let (code, list) = entry;
            let ghost done = dict@;
            proof {
                assert(self.src_map@.contains_key(*code));
            }
            let id = SrcId::from_code(*code);
            let mut j: usize = 0;
            while j < list.len()
                invariant
                    j <= list@.len(),
                    self.src_map@.contains_key(*code),
                    self.src_map@[*code] == *list,
                    src_code(id) == *code,
                    dict_distinct(dict@),
                    dict_sound(dict@, self@.names),
                    forall|x: NameView| #[trigger] dict_has(done, x) ==> dict_has(dict@, x),
                    forall|k: int| 0 <= k < j ==> dict_has(dict@, (#[trigger] list@[k])@),
                decreases list.len() - j,
            {
                proof {
                    assert(self@.names[id][j as int] == list@[j as int]@);
                }
                enter_name(&mut dict, &list[j], id, Ghost(self@.names));
                j += 1;
            }
        }
        proof {
            assert forall|id: SrcId, k: int|
                self@.names.contains_key(id) && 0 <= k < self@.names[id].len() implies dict_has(
                dict@,
                #[trigger] self@.names[id][k],
            ) by {
                let code = src_code(id);
                assert(self.src_map@.contains_key(code));
                let i = choose|i: int|
                    0 <= i < entries.len() && entries[i] == (&code, &self.src_map@[code]);
                assert(entries[i].1@[k]@ == self@.names[id][k]);
            }
        }
        dict
    }
}

/// The text of an optional string.
pub open spec fn text_of(s: Option<String>) -> Option<Seq<char>> {
    match s {
        Some(s) => Some(s@),
        None => None,
    }
}

impl SourceView {
    /// No light has an identifier that is yet to be handed out.
    pub open spec fn lights_known(self) -> bool {
        forall|n: u16| #[trigger]
            self.names.contains_key(SrcId::Light(n)) ==> n < self.next_light_id
    }

    /// Groups stand for surfaces, with or without a material.
    pub open spec fn groups_are_surfaces(self) -> bool {
        forall|g: Seq<char>| #[trigger]
            self.groups.contains_key(g) ==> self.groups[g] is Surf || self.groups[g] is MatSurf
    }
}

impl SourceView {
    /// The identifier was handed out: it lies below the next one of its kind, or above the next
    /// one of surfaces with a material.
    pub open spec fn handed_out(self, id: SrcId) -> bool {
        match id {
            SrcId::Mat(n) => n < self.next_mat_id || n > self.next_matsurf_id,
            SrcId::Surf(n) => n < self.next_surf_id || n > self.next_matsurf_id,
            SrcId::MatSurf(n) => n > self.next_matsurf_id,
            _ => true,
        }
    }

    /// Names and groups stand at identifiers that were handed out.
    pub open spec fn ids_known(self) -> bool {
        &&& forall|id: SrcId| #[trigger] self.names.contains_key(id) ==> self.handed_out(id)
        &&& forall|g: Seq<char>| #[trigger]
            self.groups.contains_key(g) ==> self.handed_out(self.groups[g])
    }
}

/// As long as the ranges of identifiers do not overlap, a new material, surface or surface with
/// a material gets an identifier that has no names yet.
pub proof fn new_ids_are_fresh(s: SourceView)
    ensures
        SourceView::initial().ids_known(),
        s.ids_known() && s.next_mat_id < s.next_matsurf_id ==> !s.names.contains_key(
            SrcId::Mat(s.next_mat_id),
        ),
        s.ids_known() && s.next_surf_id < s.next_matsurf_id ==> !s.names.contains_key(
            SrcId::Surf(s.next_surf_id),
        ),
        s.ids_known() ==> !s.names.contains_key(SrcId::MatSurf(s.next_matsurf_id)),
        forall|name: Seq<char>|
            s.ids_known() && s.accepts_light() ==> #[trigger] s.with_light(name).ids_known(),
        forall|name: Seq<char>|
            s.ids_known() && s.accepts_mat() ==> #[trigger] s.with_mat(name).ids_known(),
        forall|name: Seq<char>, grp: Option<Seq<char>>|
            s.ids_known() && s.accepts_surf(grp) ==> #[trigger] s.with_surf(name, grp).ids_known(),
        forall|obj: Seq<char>, mat: Seq<char>, grp: Option<Seq<char>>|
            s.ids_known() && s.accepts_matsurf(grp) ==> #[trigger] s.with_matsurf(
                obj,
                mat,
                grp,
            ).ids_known(),
{
    assert forall|name: Seq<char>, grp: Option<Seq<char>>|
        s.ids_known() && s.accepts_surf(grp) implies #[trigger] s.with_surf(
        name,
        grp,
    ).ids_known() by {
        let after = s.with_surf(name, grp);
        assert forall|id: SrcId| s.handed_out(id) implies #[trigger] after.handed_out(id) by {}
        assert forall|id: SrcId| #[trigger] after.names.contains_key(id) implies after.handed_out(
            id,
        ) by {
            if s.names.contains_key(id) {
                assert(s.handed_out(id));
            }
        }
        assert forall|g: Seq<char>| #[trigger] after.groups.contains_key(
            g,
        ) implies after.handed_out(after.groups[g]) by {
            if s.groups.contains_key(g) {
                assert(s.handed_out(s.groups[g]));
            }
        }
    }
    assert forall|obj: Seq<char>, mat: Seq<char>, grp: Option<Seq<char>>|
        s.ids_known() && s.accepts_matsurf(grp) implies #[trigger] s.with_matsurf(
        obj,
        mat,
        grp,
    ).ids_known() by {
        let after = s.with_matsurf(obj, mat, grp);
        assert forall|id: SrcId| s.handed_out(id) implies #[trigger] after.handed_out(id) by {}
        assert forall|id: SrcId| #[trigger] after.names.contains_key(id) implies after.handed_out(
            id,
        ) by {
            if s.names.contains_key(id) {
                assert(s.handed_out(id));
            }
        }
        assert forall|g: Seq<char>| #[trigger] after.groups.contains_key(
            g,
        ) implies after.handed_out(after.groups[g]) by {
            if s.groups.contains_key(g) {
                assert(s.handed_out(s.groups[g]));
            }
        }
    }
    assert forall|name: Seq<char>| s.ids_known() && s.accepts_mat() implies #[trigger] s.with_mat(
        name,
    ).ids_known() by {
        let after = s.with_mat(name);
        assert forall|id: SrcId| #[trigger] after.names.contains_key(id) implies after.handed_out(
            id,
        ) by {
            if s.names.contains_key(id) {
                assert(s.handed_out(id));
            }
        }
        assert forall|g: Seq<char>| #[trigger] after.groups.contains_key(
            g,
        ) implies after.handed_out(after.groups[g]) by {
            assert(s.handed_out(s.groups[g]));
        }
    }
    assert forall|name: Seq<char>|
        s.ids_known() && s.accepts_light() implies #[trigger] s.with_light(name).ids_known() by {
        let after = s.with_light(name);
        assert forall|id: SrcId| #[trigger] after.names.contains_key(id) implies after.handed_out(
            id,
        ) by {
            if s.names.contains_key(id) {
                assert(s.handed_out(id));
            }
        }
        assert forall|g: Seq<char>| #[trigger] after.groups.contains_key(
            g,
        ) implies after.handed_out(after.groups[g]) by {
            assert(s.handed_out(s.groups[g]));
        }
    }
}

/// Lights can be added until their identifiers run out: the identifier of a new light is never
/// in use.
pub proof fn light_ids_are_fresh(s: SourceView)
    ensures
        SourceView::initial().lights_known(),
        s.lights_known() ==> (s.accepts_light() <==> s.next_light_id < u16::MAX),
        forall|name: Seq<char>|
            s.lights_known() && s.accepts_light() ==> #[trigger] s.with_light(name).lights_known(),
        forall|name: Seq<char>|
            s.lights_known() && s.accepts_mat() ==> #[trigger] s.with_mat(name).lights_known(),
        forall|name: Seq<char>, grp: Option<Seq<char>>|
            s.lights_known() && s.accepts_surf(grp) ==> #[trigger] s.with_surf(
                name,
                grp,
            ).lights_known(),
        forall|obj: Seq<char>, mat: Seq<char>, grp: Option<Seq<char>>|
            s.lights_known() && s.accepts_matsurf(grp) ==> #[trigger] s.with_matsurf(
                obj,
                mat,
                grp,
            ).lights_known(),
{
    assert forall|name: Seq<char>|
        s.lights_known() && s.accepts_light() implies #[trigger] s.with_light(
        name,
    ).lights_known() by {
        let after = s.with_light(name);
        assert forall|n: u16| #[trigger] after.names.contains_key(SrcId::Light(n)) implies n
            < after.next_light_id by {
            if n != s.next_light_id {
                assert(s.names.contains_key(SrcId::Light(n)));
            }
        }
    }
    assert forall|name: Seq<char>, grp: Option<Seq<char>>|
        s.lights_known() && s.accepts_surf(grp) implies #[trigger] s.with_surf(
        name,
        grp,
    ).lights_known() by {
        let after = s.with_surf(name, grp);
        assert forall|n: u16| #[trigger] after.names.contains_key(SrcId::Light(n)) implies n
            < after.next_light_id by {
            assert(s.names.contains_key(SrcId::Light(n)));
        }
    }
    assert forall|obj: Seq<char>, mat: Seq<char>, grp: Option<Seq<char>>|
        s.lights_known() && s.accepts_matsurf(grp) implies #[trigger] s.with_matsurf(
        obj,
        mat,
        grp,
    ).lights_known() by {
        let after = s.with_matsurf(obj, mat, grp);
        assert forall|n: u16| #[trigger] after.names.contains_key(SrcId::Light(n)) implies n
            < after.next_light_id by {
            assert(s.names.contains_key(SrcId::Light(n)));
        }
    }
}

/// Groups only ever stand for surfaces, so that a surface can be added to every group, known or
/// new, until the identifiers of surfaces run out.
pub proof fn groups_take_surfaces(s: SourceView)
    ensures
        SourceView::initial().groups_are_surfaces(),
        forall|grp: Option<Seq<char>>|
            s.groups_are_surfaces() && s.next_surf_id < u16::MAX ==> #[trigger] s.accepts_surf(grp),
        forall|name: Seq<char>|
            s.groups_are_surfaces() ==> #[trigger] s.with_light(name).groups_are_surfaces(),
        forall|name: Seq<char>|
            s.groups_are_surfaces() ==> #[trigger] s.with_mat(name).groups_are_surfaces(),
        forall|name: Seq<char>, grp: Option<Seq<char>>|
            s.groups_are_surfaces() ==> #[trigger] s.with_surf(name, grp).groups_are_surfaces(),
        forall|obj: Seq<char>, mat: Seq<char>, grp: Option<Seq<char>>|
            s.groups_are_surfaces() ==> #[trigger] s.with_matsurf(
                obj,
                mat,
                grp,
            ).groups_are_surfaces(),
{
    assert forall|name: Seq<char>, grp: Option<Seq<char>>|
        s.groups_are_surfaces() implies #[trigger] s.with_surf(
        name,
        grp,
    ).groups_are_surfaces() by {
        let after = s.with_surf(name, grp);
        assert forall|g: Seq<char>| #[trigger] after.groups.contains_key(g) implies after.groups[g]
            is Surf || after.groups[g] is MatSurf by {
            if grp != Some(g) {
                assert(s.groups.contains_key(g));
            }
        }
    }
    assert forall|obj: Seq<char>, mat: Seq<char>, grp: Option<Seq<char>>|
        s.groups_are_surfaces() implies #[trigger] s.with_matsurf(
        obj,
        mat,
        grp,
    ).groups_are_surfaces() by {
        let after = s.with_matsurf(obj, mat, grp);
        assert forall|g: Seq<char>| #[trigger] after.groups.contains_key(g) implies after.groups[g]
            is Surf || after.groups[g] is MatSurf by {
            if grp != Some(g) {
                assert(s.groups.contains_key(g));
            }
        }
    }
}

/// All objects of a group without materials share one source.
pub proof fn group_shares_surface(
    s: SourceView,
    first: Seq<char>,
    second: Seq<char>,
    grp: Seq<char>,
)
    requires
        s.groups_are_surfaces(),
        s.accepts_surf(Some(grp)),
    ensures
        s.with_surf(first, Some(grp)).accepts_surf(Some(grp)),
        s.with_surf(first, Some(grp)).surf_id(Some(grp)) == s.surf_id(Some(grp)),
        ({
            let after = s.with_surf(first, Some(grp)).with_surf(second, Some(grp));
            after.names_of(s.surf_id(Some(grp))) == s.names_of(s.surf_id(Some(grp))).push(
                NameView::Surf(first),
            ).push(NameView::Surf(second))
        }),
{
}

} // verus!
