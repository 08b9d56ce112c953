//! What registering a source does to the names, groups and identifiers of a table.
use vstd::prelude::*;
use crate::source::{NameView, SrcId, SrcName, src_code};
use crate::sources::{
    GroupMap, SourceTable, SourceView, dict_distinct, dict_has, dict_sound, lemma_group_entry,
    lemma_group_keys,
};

verus! {

/// A light gets the next identifier of lights, under which its name is the only one. Nothing else
/// changes but that the next light gets the next identifier.
pub proof fn light_is_registered(s: SourceView, name: Seq<char>)
    requires
        s.accepts_light(),
    ensures
        ({
            let id = SrcId::Light(s.next_light_id);
            let t = s.with_light(name);
            &&& t.names.contains_key(id)
            &&& t.names[id] == seq![NameView::Light(name)]
            &&& forall|other: SrcId|
                other != id ==> (#[trigger] t.names.contains_key(other) <==> s.names.contains_key(
                    other,
                ))
            &&& forall|other: SrcId|
                other != id && s.names.contains_key(other) ==> #[trigger] t.names[other]
                    == s.names[other]
            &&& t.groups == s.groups
            &&& t.next_light_id == s.next_light_id + 1
            &&& t.next_mat_id == s.next_mat_id
            &&& t.next_surf_id == s.next_surf_id
            &&& t.next_matsurf_id == s.next_matsurf_id
        }),
{
    let id = SrcId::Light(s.next_light_id);
    assert(s.with_light(name).names[id] =~= seq![NameView::Light(name)]);
}

/// A material gets the next identifier of materials, under which its name comes last. Nothing
/// else changes but that the next material gets the next identifier.
pub proof fn material_is_registered(s: SourceView, name: Seq<char>)
    requires
        s.accepts_mat(),
    ensures
        ({
            let id = SrcId::Mat(s.next_mat_id);
            let t = s.with_mat(name);
            &&& t.names.contains_key(id)
            &&& t.names[id].last() == NameView::Mat(name)
            &&& t.names[id].drop_last() == (if s.names.contains_key(id) {
                s.names[id]
            } else {
                Seq::empty()
            })
            &&& t.names[id].len() > 0
            &&& forall|other: SrcId|
                other != id ==> (#[trigger] t.names.contains_key(other) <==> s.names.contains_key(
                    other,
                ))
            &&& forall|other: SrcId|
                other != id && s.names.contains_key(other) ==> #[trigger] t.names[other]
                    == s.names[other]
            &&& t.groups == s.groups
            &&& t.next_mat_id == s.next_mat_id + 1
            &&& t.next_light_id == s.next_light_id
            &&& t.next_surf_id == s.next_surf_id
            &&& t.next_matsurf_id == s.next_matsurf_id
        }),
{
    let id = SrcId::Mat(s.next_mat_id);
    let t = s.with_mat(name);
    assert(t.names[id].drop_last() =~= (if s.names.contains_key(id) {
        s.names[id]
    } else {
        Seq::empty()
    }));
}

/// Whatever the group, the name of a surface comes last among the names of the source that it is
/// given, behind all that the source had.
pub proof fn surface_is_named(s: SourceView, name: Seq<char>, grp: Option<Seq<char>>)
    requires
        s.accepts_surf(grp),
    ensures
        ({
            let id = s.surf_id(grp);
            let t = s.with_surf(name, grp);
            &&& t.names.contains_key(id)
            &&& t.names[id] == (if s.names.contains_key(id) {
                s.names[id]
            } else {
                Seq::empty()
            }).push(NameView::Surf(name))
        }),
{
}

/// A surface without a group, or the first of a group, gets the next identifier of surfaces, which
/// stands for the group from then on. Other surfaces of a group get what stands for it.
pub proof fn surface_identifiers(s: SourceView, name: Seq<char>, grp: Option<Seq<char>>)
    requires
        s.accepts_surf(grp),
    ensures
        ({
            let id = s.surf_id(grp);
            let t = s.with_surf(name, grp);
            match grp {
                None => {
                    &&& id == SrcId::Surf(s.next_surf_id)
                    &&& t.next_surf_id == s.next_surf_id + 1
                    &&& t.next_matsurf_id == s.next_matsurf_id
                    &&& t.groups == s.groups
                },
                Some(g) => if !s.groups.contains_key(g) {
                    &&& id == SrcId::Surf(s.next_surf_id)
                    &&& t.next_surf_id == s.next_surf_id + 1
                    &&& t.next_matsurf_id == s.next_matsurf_id
                    &&& t.groups == s.groups.insert(g, id)
                } else if s.groups[g] is Mat {
                    &&& id == SrcId::MatSurf(s.next_matsurf_id)
                    &&& t.next_surf_id == s.next_surf_id
                    &&& t.next_matsurf_id == s.next_matsurf_id - 1
                    &&& t.groups == s.groups
                } else {
                    &&& id == s.groups[g]
                    &&& t.next_surf_id == s.next_surf_id
                    &&& t.next_matsurf_id == s.next_matsurf_id
                    &&& t.groups == s.groups
                },
            }
        }),
        s.with_surf(name, grp).next_mat_id == s.next_mat_id,
        s.with_surf(name, grp).next_light_id == s.next_light_id,
{
}

/// A surface leaves the names of all other sources as they are, unless its group stands for a
/// material: the names of the material then stand under the identifier of the new source.
pub proof fn surface_keeps_names(s: SourceView, name: Seq<char>, grp: Option<Seq<char>>)
    requires
        s.accepts_surf(grp),
    ensures
        ({
            let id = s.surf_id(grp);
            let t = s.with_surf(name, grp);
            if grp is Some && s.groups.contains_key(grp.unwrap()) && s.groups[grp.unwrap()]
                is Mat {
                names_moved(
                    s,
                    t,
                    id,
                    s.groups[grp.unwrap()],
                    SrcId::Mat(s.next_matsurf_id),
                )
            } else {
                names_kept(s, t, id)
            }
        }),
{
}

/// Whatever the group, the name of a surface with a material comes last among the names of the
/// source that it is given, behind all that the source had. It is the name of the object and that
/// of the material, with a colon between them.
pub proof fn surface_with_material_is_named(
    s: SourceView,
    obj: Seq<char>,
    mat: Seq<char>,
    grp: Option<Seq<char>>,
)
    requires
        s.accepts_matsurf(grp),
    ensures
        ({
            let id = s.matsurf_id(grp);
            let t = s.with_matsurf(obj, mat, grp);
            &&& id is MatSurf
            &&& t.names.contains_key(id)
            &&& t.names[id] == (if s.names.contains_key(id) {
                s.names[id]
            } else {
                Seq::empty()
            }).push(NameView::MatSurf(obj.push(':') + mat))
        }),
{
    assert(obj.push(':') + mat =~= obj + seq![':'] + mat);
}

/// A surface with a material gets the next identifier of its kind, which stands for its group from
/// then on if the group is new. Where such a source stands for the group, it is that one.
pub proof fn surface_with_material_identifiers(
    s: SourceView,
    obj: Seq<char>,
    mat: Seq<char>,
    grp: Option<Seq<char>>,
)
    requires
        s.accepts_matsurf(grp),
    ensures
        ({
            let id = s.matsurf_id(grp);
            let t = s.with_matsurf(obj, mat, grp);
            match grp {
                None => {
                    &&& id == SrcId::MatSurf(s.next_matsurf_id)
                    &&& t.next_matsurf_id == s.next_matsurf_id - 1
                    &&& t.groups == s.groups
                },
                Some(g) => if !s.groups.contains_key(g) {
                    &&& id == SrcId::MatSurf(s.next_matsurf_id)
                    &&& t.next_matsurf_id == s.next_matsurf_id - 1
                    &&& t.groups == s.groups.insert(g, id)
                } else if s.groups[g] is MatSurf {
                    &&& id == s.groups[g]
                    &&& t.next_matsurf_id == s.next_matsurf_id
                    &&& t.groups == s.groups
                } else {
                    &&& id == SrcId::MatSurf(s.next_matsurf_id)
                    &&& t.next_matsurf_id == s.next_matsurf_id - 1
                    &&& t.groups == s.groups
                },
            }
        }),
        s.with_matsurf(obj, mat, grp).next_surf_id == s.next_surf_id,
        s.with_matsurf(obj, mat, grp).next_mat_id == s.next_mat_id,
        s.with_matsurf(obj, mat, grp).next_light_id == s.next_light_id,
{
}

/// A surface with a material leaves the names of all other sources as they are, unless its group
/// stands for a plain surface or a material: the names of that then stand under the identifier of
/// the new source.
pub proof fn surface_with_material_keeps_names(
    s: SourceView,
    obj: Seq<char>,
    mat: Seq<char>,
    grp: Option<Seq<char>>,
)
    requires
        s.accepts_matsurf(grp),
    ensures
        ({
            let id = s.matsurf_id(grp);
            let t = s.with_matsurf(obj, mat, grp);
            if grp is Some && s.groups.contains_key(grp.unwrap()) && s.groups[grp.unwrap()]
                is Surf {
                names_moved(
                    s,
                    t,
                    id,
                    s.groups[grp.unwrap()],
                    SrcId::Surf(s.next_matsurf_id),
                )
            } else if grp is Some && s.groups.contains_key(grp.unwrap()) && s.groups[grp.unwrap()]
                is Mat {
                names_moved(
                    s,
                    t,
                    id,
                    s.groups[grp.unwrap()],
                    SrcId::Mat(s.next_matsurf_id),
                )
            } else {
                names_kept(s, t, id)
            }
        }),
{
}

/// Both tables have the same names, but under `id`.
pub open spec fn names_kept(s: SourceView, t: SourceView, id: SrcId) -> bool {
    &&& forall|other: SrcId|
        other != id ==> (#[trigger] t.names.contains_key(other) <==> s.names.contains_key(other))
    &&& forall|other: SrcId|
        other != id && s.names.contains_key(other) ==> #[trigger] t.names[other] == s.names[other]
}

/// `t` has under `to` the names that `s` has under `from`, and none under `from`; under all others
/// but `id`, both have the same names.
pub open spec fn names_moved(
    s: SourceView,
    t: SourceView,
    id: SrcId,
    from: SrcId,
    to: SrcId,
) -> bool {
    &&& t.names.contains_key(to)
    &&& t.names[to] == s.names[from]
    &&& from != to ==> !t.names.contains_key(from)
    &&& forall|other: SrcId|
        other != id && other != from && other != to ==> (#[trigger] t.names.contains_key(other)
            <==> s.names.contains_key(other))
    &&& forall|other: SrcId|
        other != id && other != from && other != to && s.names.contains_key(other)
            ==> #[trigger] t.names[other] == s.names[other]
}

/// What [`names_kept`] and [`names_moved`] say of single names: no name that a table has gets lost
/// when another source is registered.
pub proof fn no_name_is_lost(
    s: SourceView,
    name: Seq<char>,
    mat: Seq<char>,
    grp: Option<Seq<char>>,
    id: SrcId,
    k: int,
)
    requires
        s.ids_known(),
        s.names.contains_key(id),
        0 <= k < s.names[id].len(),
    ensures
        s.accepts_light() ==> exists|x: SrcId, i: int|
            s.with_light(name).names.contains_key(x) && 0 <= i < s.with_light(name).names[x].len()
                && #[trigger] s.with_light(name).names[x][i] == s.names[id][k],
        s.accepts_mat() ==> exists|x: SrcId, i: int|
            s.with_mat(name).names.contains_key(x) && 0 <= i < s.with_mat(name).names[x].len()
                && #[trigger] s.with_mat(name).names[x][i] == s.names[id][k],
        s.accepts_surf(grp) && s.next_surf_id < s.next_matsurf_id && s.next_mat_id
            <= s.next_matsurf_id ==> exists|x: SrcId, i: int|
            s.with_surf(name, grp).names.contains_key(x) && 0 <= i < s.with_surf(
                name,
                grp,
            ).names[x].len() && #[trigger] s.with_surf(name, grp).names[x][i] == s.names[id][k],
        s.accepts_matsurf(grp) && s.next_surf_id <= s.next_matsurf_id && s.next_mat_id
            <= s.next_matsurf_id ==> exists|x: SrcId, i: int|
            s.with_matsurf(name, mat, grp).names.contains_key(x) && 0 <= i < s.with_matsurf(
                name,
                mat,
                grp,
            ).names[x].len() && #[trigger] s.with_matsurf(name, mat, grp).names[x][i]
                == s.names[id][k],
{
    let same = s.names[id][k];
    assert(s.handed_out(id));
    if s.accepts_light() {
        assert(s.with_light(name).names[id][k] == same);
    }
    if s.accepts_mat() {
        assert(s.with_mat(name).names[id][k] == same);
    }
    if s.accepts_surf(grp) && s.next_surf_id < s.next_matsurf_id && s.next_mat_id
        <= s.next_matsurf_id {
        let t = s.with_surf(name, grp);
        if s.group(grp) == Some(id) && id is Mat {
            assert(t.names[SrcId::Mat(s.next_matsurf_id)][k] == same);
        } else {
            assert(t.names[id][k] == same);
        }
    }
    if s.accepts_matsurf(grp) && s.next_surf_id <= s.next_matsurf_id && s.next_mat_id
        <= s.next_matsurf_id {
        let t = s.with_matsurf(name, mat, grp);
        if s.group(grp) == Some(id) && id is Mat {
            assert(t.names[SrcId::Mat(s.next_matsurf_id)][k] == same);
        } else if s.group(grp) == Some(id) && id is Surf {
            assert(t.names[SrcId::Surf(s.next_matsurf_id)][k] == same);
        } else {
            assert(t.names[id][k] == same);
        }
    }
}

/// All objects with a material of a group that is new, or that such an object was the first of,
/// share one source, which has the names of them all.
pub proof fn group_shares_surface_with_material(
    s: SourceView,
    first: Seq<char>,
    first_mat: Seq<char>,
    second: Seq<char>,
    second_mat: Seq<char>,
    grp: Seq<char>,
)
    requires
        s.accepts_matsurf(Some(grp)),
        !s.groups.contains_key(grp) || s.groups[grp] is MatSurf,
    ensures
        s.with_matsurf(first, first_mat, Some(grp)).accepts_matsurf(Some(grp)),
        s.with_matsurf(first, first_mat, Some(grp)).matsurf_id(Some(grp)) == s.matsurf_id(
            Some(grp),
        ),
        ({
            let id = s.matsurf_id(Some(grp));
            let after = s.with_matsurf(first, first_mat, Some(grp)).with_matsurf(
                second,
                second_mat,
                Some(grp),
            );
            after.names.contains_key(id) && after.names[id] == (if s.names.contains_key(id) {
                s.names[id]
            } else {
                Seq::empty()
            }).push(NameView::MatSurf(first.push(':') + first_mat)).push(
                NameView::MatSurf(second.push(':') + second_mat),
            )
        }),
{
    let t = s.with_matsurf(first, first_mat, Some(grp));
    surface_with_material_is_named(s, first, first_mat, Some(grp));
    surface_with_material_is_named(t, second, second_mat, Some(grp));
}

/// What can be registered: lights and materials as long as there are identifiers; surfaces, also
/// for want of an identifier of their own, where something with a surface stands for their group,
/// or something that has names and can become part of one.
pub proof fn acceptance(s: SourceView, grp: Option<Seq<char>>)
    ensures
        s.accepts_light() <==> s.next_light_id < 0xFFFF && !s.names.contains_key(
            SrcId::Light(s.next_light_id),
        ),
        s.accepts_mat() <==> s.next_mat_id < 0xFFFF,
        grp is None || !s.groups.contains_key(grp.unwrap()) ==> (s.accepts_surf(grp)
            <==> s.next_surf_id < 0xFFFF),
        grp is None || !s.groups.contains_key(grp.unwrap()) ==> (s.accepts_matsurf(grp)
            <==> s.next_matsurf_id > 0),
        grp is Some && s.groups.contains_key(grp.unwrap()) ==> ({
            let known = s.groups[grp.unwrap()];
            let free = s.next_matsurf_id > 0 && s.names.contains_key(known);
            &&& s.accepts_surf(grp) <==> known is Surf || known is MatSurf || (known is Mat && free)
            &&& s.accepts_matsurf(grp) <==> known is MatSurf || ((known is Surf || known is Mat)
                && free)
        }),
{
}

/// A new table has no names and no groups. Identifiers start at zero, those of surfaces with a
/// material at the other end.
pub proof fn new_table_is_empty()
    ensures
        SourceView::initial().names == Map::<SrcId, Seq<NameView>>::empty(),
        SourceView::initial().groups == Map::<Seq<char>, SrcId>::empty(),
        SourceView::initial().next_light_id == 0,
        SourceView::initial().next_mat_id == 0,
        SourceView::initial().next_surf_id == 0,
        SourceView::initial().next_matsurf_id == 0xFFFF,
{
}

/// The model of a table has, under each source and in order, the names that the table has under
/// the code of the source, and the same counters.
pub proof fn model_of_table(table: SourceTable, id: SrcId)
    ensures
        table@.names.contains_key(id) <==> table.src_map@.contains_key(src_code(id)),
        table.src_map@.contains_key(src_code(id)) ==> table@.names[id].len()
            == table.src_map@[src_code(id)]@.len(),
        forall|k: int|
            table.src_map@.contains_key(src_code(id)) && 0 <= k < table@.names[id].len()
                ==> #[trigger] table@.names[id][k] == table.src_map@[src_code(id)]@[k]@,
        table@.groups == table.grps@,
        table@.next_mat_id == table.next_mat_id,
        table@.next_surf_id == table.next_surf_id,
        table@.next_matsurf_id == table.next_matsurf_id,
        table@.next_light_id == table.next_light_id,
{
}

/// The model of a map of groups leads from the name of each entry to its source, and from no other
/// names.
pub proof fn model_of_groups(groups: GroupMap, g: Seq<char>)
    requires
        groups.wf(),
    ensures
        forall|k: int|
            0 <= k < groups.entries@.len() ==> groups@.contains_key(
                (#[trigger] groups.entries@[k]).0@,
            ) && groups@[groups.entries@[k].0@] == groups.entries@[k].1,
        groups@.contains_key(g) ==> exists|k: int|
            0 <= k < groups.entries@.len() && (#[trigger] groups.entries@[k]).0@ == g,
        forall|j: int, k: int|
            0 <= j < k < groups.entries@.len() ==> (#[trigger] groups.entries@[j]).0@ != (
            #[trigger] groups.entries@[k]).0@,
{
    assert forall|k: int| 0 <= k < groups.entries@.len() implies groups@.contains_key(
        (#[trigger] groups.entries@[k]).0@,
    ) && groups@[groups.entries@[k].0@] == groups.entries@[k].1 by {
        lemma_group_entry(groups.entries@, k);
    }
    lemma_group_keys(groups.entries@, g);
}

/// The models of two names are the same just where the names are of the same kind and spelled
/// alike.
pub proof fn model_of_name(a: SrcName, b: SrcName)
    ensures
        a@ == b@ <==> match (a, b) {
            (SrcName::Light(x), SrcName::Light(y)) => x@ == y@,
            (SrcName::Surf(x), SrcName::Surf(y)) => x@ == y@,
            (SrcName::MatSurf(x), SrcName::MatSurf(y)) => x@ == y@,
            (SrcName::Mat(x), SrcName::Mat(y)) => x@ == y@,
            (SrcName::Detector(x), SrcName::Detector(y)) => x@ == y@,
            _ => false,
        },
        a@ is Light <==> a is Light,
        a@ is Surf <==> a is Surf,
        a@ is MatSurf <==> a is MatSurf,
        a@ is Mat <==> a is Mat,
        a@ is Detector <==> a is Detector,
        a matches SrcName::Light(x) ==> a@ == NameView::Light(x@),
        a matches SrcName::Surf(x) ==> a@ == NameView::Surf(x@),
        a matches SrcName::MatSurf(x) ==> a@ == NameView::MatSurf(x@),
        a matches SrcName::Mat(x) ==> a@ == NameView::Mat(x@),
        a matches SrcName::Detector(x) ==> a@ == NameView::Detector(x@),
{
}

/// The code of a source has its number in the lower half, and in the upper half a number that
/// tells its kind.
pub proof fn code_of_source(n: u16)
    ensures
        src_code(SrcId::NoSource) == 0,
        src_code(SrcId::SrcId(n)) == 0x1_0000 + n,
        src_code(SrcId::Mat(n)) == 0x2_0000 + n,
        src_code(SrcId::Surf(n)) == 0x3_0000 + n,
        src_code(SrcId::MatSurf(n)) == 0x4_0000 + n,
        src_code(SrcId::Light(n)) == 0x5_0000 + n,
        src_code(SrcId::Detector(n)) == 0x6_0000 + n,
{
}

/// A dictionary of sources leads from a name to a source that has the name, has every name that
/// some source has, and has no name twice.
pub proof fn dictionary_of_names(
    dict: Seq<(SrcName, SrcId)>,
    s: SourceView,
    i: int,
    j: int,
    id: SrcId,
    k: int,
)
    requires
        dict_distinct(dict),
        dict_sound(dict, s.names),
        forall|x: SrcId, y: int|
            s.names.contains_key(x) && 0 <= y < s.names[x].len() ==> dict_has(
                dict,
                #[trigger] s.names[x][y],
            ),
    ensures
        0 <= i < dict.len() ==> s.names.contains_key(dict[i].1) && exists|y: int|
            0 <= y < s.names[dict[i].1].len() && #[trigger] s.names[dict[i].1][y] == dict[i].0@,
        0 <= i < j < dict.len() ==> dict[i].0@ != dict[j].0@,
        s.names.contains_key(id) && 0 <= k < s.names[id].len() ==> exists|x: int|
            0 <= x < dict.len() && (#[trigger] dict[x]).0@ == s.names[id][k],
{
    if 0 <= i < dict.len() {
        let names = s.names[dict[i].1];
        assert(names.contains(dict[i].0@));
        let y = choose|y: int| 0 <= y < names.len() && names[y] == dict[i].0@;
        assert(s.names[dict[i].1][y] == dict[i].0@);
    }
    if s.names.contains_key(id) && 0 <= k < s.names[id].len() {
        assert(dict_has(dict, s.names[id][k]));
    }
}

} // verus!
