use vstd::prelude::*;

use crate::bundled::BundledPhotos;
use crate::history::{lemma_undo_after_push, History, HistoryView, MAX_HISTORY};
use crate::model::{
    first_with_id, has_id, ids_valid, is_first_with_id, layer_with_id, layers_view,
    lemma_first_with_id, lemma_has_id_first, is_default_canvas, is_default_frame,
    is_default_headline, Background, CropRect, F32Bits, FrameKind, ImageLayer, Layer, LayerKind, LayerKindView,
    LayerView, Project, ProjectView, Transform,
};

verus! {

/// `k` is the first position of `x` in `s`.
pub open spec fn is_first_pos(s: Seq<u64>, x: u64, k: int) -> bool {
    &&& 0 <= k < s.len()
    &&& s[k] == x
    &&& forall|j: int| 0 <= j < k ==> #[trigger] s[j] != x
}

/// The first position of `x` in `s` (meaningful when `s` contains `x`).
pub open spec fn first_pos(s: Seq<u64>, x: u64) -> int {
    choose|k: int| is_first_pos(s, x, k)
}

proof fn lemma_first_pos(s: Seq<u64>, x: u64, k: int)
    requires
        is_first_pos(s, x, k),
    ensures
        first_pos(s, x) == k,
{
    let m = first_pos(s, x);
    assert(is_first_pos(s, x, m));
    if m < k {
        assert(s[m] != x);
    } else if k < m {
        assert(s[k] != x);
    }
}

/// The multi-selection and the primary selection agree: the list holds no
/// id twice, it is empty exactly when there is no primary layer, and the
/// primary layer is one of its entries.
pub open spec fn selection_in_sync(primary: Option<u64>, selected: Seq<u64>) -> bool {
    &&& selected.no_duplicates()
    &&& (primary is None <==> selected.len() == 0)
    &&& (primary matches Some(p) ==> selected.contains(p))
}

/// The layers an editing command acts on: the whole multi-selection, or the
/// primary layer alone when nothing is multi-selected.
pub open spec fn targets_of(primary: Option<u64>, selected: Seq<u64>) -> Seq<u64> {
    if selected.len() > 0 {
        selected
    } else {
        match primary {
            Some(p) => seq![p],
            None => Seq::empty(),
        }
    }
}

/// The selection after shift-clicking `id`: a selected id leaves the list
/// (and if it was primary, the last remaining entry becomes primary); an
/// unselected id is appended and becomes primary.
pub open spec fn toggled(primary: Option<u64>, selected: Seq<u64>, id: u64) -> (
    Option<u64>,
    Seq<u64>,
) {
    if selected.contains(id) {
        let rest = selected.remove(first_pos(selected, id));
        let p = if primary == Some(id) {
            if rest.len() > 0 {
                Some(rest.last())
            } else {
                None
            }
        } else {
            primary
        };
        (p, rest)
    } else {
        (Some(id), selected.push(id))
    }
}

fn position_of(v: &Vec<u64>, x: u64) -> (r: Option<usize>)
    ensures
        match r {
            Some(k) => is_first_pos(v@, x, k as int),
            None => !v@.contains(x),
        },
{
    let mut i: usize = 0;
    while i < v.len()
        invariant
            i <= v.len(),
            forall|j: int| 0 <= j < i ==> #[trigger] v@[j] != x,
        decreases v.len() - i,
    {
        if v[i] == x {
            return Some(i);
        }
        i = i + 1;
    }
    None
}

/// Makes `id` the only selected layer.
pub fn select_only(project: &mut Project, selected: &mut Vec<u64>, id: u64)
    ensures
        final(project).selected_layer == Some(id),
        final(selected)@ == seq![id],
        final(project).layers == old(project).layers,
        final(project).next_id == old(project).next_id,
        final(project).canvas_width == old(project).canvas_width,
        final(project).canvas_height == old(project).canvas_height,
        final(project).background == old(project).background,
        selection_in_sync(final(project).selected_layer, final(selected)@),
{
    project.selected_layer = Some(id);
    *selected = vec![id];
    assert(selected@ =~= seq![id]);
}

/// Deselects everything.
pub fn clear_selection(project: &mut Project, selected: &mut Vec<u64>)
    ensures
        final(project).selected_layer is None,
        final(selected)@ == Seq::<u64>::empty(),
        final(project).layers == old(project).layers,
        final(project).next_id == old(project).next_id,
        final(project).canvas_width == old(project).canvas_width,
        final(project).canvas_height == old(project).canvas_height,
        final(project).background == old(project).background,
        selection_in_sync(final(project).selected_layer, final(selected)@),
{
    project.selected_layer = None;
    selected.clear();
}

/// Adds `id` to the multi-selection, or removes it if already there.
pub fn toggle_selection(project: &mut Project, selected: &mut Vec<u64>, id: u64)
    ensures
        (final(project).selected_layer, final(selected)@) == toggled(
            old(project).selected_layer,
            old(selected)@,
            id,
        ),
        final(project).layers == old(project).layers,
        final(project).next_id == old(project).next_id,
        final(project).canvas_width == old(project).canvas_width,
        final(project).canvas_height == old(project).canvas_height,
        final(project).background == old(project).background,
{
    match position_of(selected, id) {
        Some(pos) => {
            proof {
                lemma_first_pos(selected@, id, pos as int);
            }
            selected.remove(pos);
            if project.selected_layer == Some(id) {
                project.selected_layer = if selected.len() > 0 {
                    Some(selected[selected.len() - 1])
                } else {
                    None
                };
            }
        },
        None => {
            selected.push(id);
            project.selected_layer = Some(id);
        },
    }
}

/// The full multi-selection, falling back to just the primary selected
/// layer when nothing is multi-selected (e.g. a plain single click).
pub fn selection_or_primary(project: &Project, selected: &Vec<u64>) -> (r: Vec<u64>)
    ensures
        r@ == targets_of(project.selected_layer, selected@),
{
    if !selected.is_empty() {
        let r = selected.clone();
        assert(r@ =~= selected@);
        r
    } else {
        match project.selected_layer {
            Some(p) => {
                let r = vec![p];
                assert(r@ =~= seq![p]);
                r
            },
            None => Vec::new(),
        }
    }
}

/// An edit was committed: the snapshot recorded as the newest undo step
/// shows the project as it was before the edit (`before`).
pub open spec fn committed(old_h: HistoryView, new_h: HistoryView, before: ProjectView) -> bool {
    &&& new_h.undo.len() > 0
    &&& new_h.undo.last()@ == before
    &&& new_h == old_h.pushed(new_h.undo.last())
}

/// Keeps a layer unless its id is one of `targets`.
pub open spec fn not_targeted(targets: Seq<u64>) -> spec_fn(LayerView) -> bool {
    |l: LayerView| !targets.contains(l.id)
}

/// The layer stack with every layer whose id is in `targets` taken out; the
/// rest keep their order.
pub open spec fn without_ids(layers: Seq<LayerView>, targets: Seq<u64>) -> Seq<LayerView> {
    layers.filter(not_targeted(targets))
}

fn contains_id(v: &Vec<u64>, x: u64) -> (r: bool)
    ensures
        r == v@.contains(x),
{
    match position_of(v, x) {
        Some(_) => true,
        None => false,
    }
}

fn layers_without(layers: &Vec<Layer>, targets: &Vec<u64>) -> (r: Vec<Layer>)
    ensures
        layers_view(r@) == without_ids(layers_view(layers@), targets@),
{
    let mut out: Vec<Layer> = Vec::new();
    let mut i: usize = 0;
    assert(layers_view(layers@).take(0) =~= Seq::<LayerView>::empty());
    proof {
        reveal_with_fuel(Seq::filter, 1);
    }
    assert(layers_view(out@) =~= without_ids(layers_view(layers@).take(0), targets@));
    while i < layers.len()
        invariant
            i <= layers.len(),
            layers_view(out@) == without_ids(layers_view(layers@).take(i as int), targets@),
        decreases layers.len() - i,
    {
        let ghost prefix = layers_view(layers@).take(i as int);
        let ghost prev = out@;
        assert(layers_view(layers@).take(i + 1) =~= prefix.push(layers@[i as int]@));
        proof {
            prefix.lemma_filter_push(layers@[i as int]@, not_targeted(targets@));
        }
        if !contains_id(targets, layers[i].id) {
            let l = layers[i].clone();
            out.push(l);
            assert(layers_view(out@) =~= layers_view(prev).push(layers@[i as int]@));
        }
        i = i + 1;
    }
    assert(layers_view(layers@).take(layers.len() as int) =~= layers_view(layers@));
    out
}

/// Deletes every targeted layer (see `targets_of`), clears the selection and
/// records the previous state for undo. Returns whether anything was
/// targeted; with nothing targeted, nothing changes.
pub fn do_delete(project: &mut Project, selected: &mut Vec<u64>, history: &mut History) -> (changed:
    bool)
    ensures
        changed == (targets_of(old(project).selected_layer, old(selected)@).len() > 0),
        !changed ==> *final(project) == *old(project) && final(selected)@ == old(selected)@
            && final(history)@ == old(history)@,
        changed ==> {
            &&& final(project)@ == (ProjectView {
                layers: without_ids(
                    old(project)@.layers,
                    targets_of(old(project).selected_layer, old(selected)@),
                ),
                selected_layer: None,
                ..old(project)@
            })
            &&& final(selected)@ == Seq::<u64>::empty()
            &&& committed(old(history)@, final(history)@, old(project)@)
        },
{
    let targets = selection_or_primary(project, selected);
    if targets.is_empty() {
        return false;
    }
    let before = project.clone();
    let kept = layers_without(&project.layers, &targets);
    project.layers = kept;
    clear_selection(project, selected);
    history.push(before);
    true
}

/// `copy` duplicates `orig` under the new id `id`, with " copy" appended to
/// its name.
pub open spec fn is_copy_of(copy: LayerView, orig: LayerView, id: u64) -> bool {
    &&& copy.id == id
    &&& copy.name@ == orig.name@ + " copy"@
    &&& copy.visible == orig.visible
    &&& copy.kind == orig.kind
    &&& copy.transform == orig.transform
}

/// How many copies duplicating `targets` appends while handling its first
/// `k` entries, when the stack held `base` layers to begin with and
/// `layers` is the stack afterwards: each target is looked up in the stack
/// as it stands at its turn, earlier copies included.
pub open spec fn copies_before(layers: Seq<LayerView>, base: int, targets: Seq<u64>, k: int) -> int
    decreases k,
{
    if k <= 0 {
        0
    } else {
        let c = copies_before(layers, base, targets, k - 1);
        if has_id(layers.take(base + c), targets[k - 1]) {
            c + 1
        } else {
            c
        }
    }
}

/// `after` is `before` with one copy appended per target that is present in
/// the stack at its turn (see `copies_before`), ids counting up from `next`.
pub open spec fn duplicated(
    before: Seq<LayerView>,
    targets: Seq<u64>,
    next: u64,
    after: Seq<LayerView>,
) -> bool {
    let base = before.len() as int;
    &&& after.len() == base + copies_before(after, base, targets, targets.len() as int)
    &&& after.take(base) == before
    &&& forall|k: int|
        #![trigger copies_before(after, base, targets, k)]
        0 <= k < targets.len() ==> {
            let c = copies_before(after, base, targets, k);
            has_id(after.take(base + c), targets[k]) ==> is_copy_of(
                after[base + c],
                after[first_with_id(after.take(base + c), targets[k])],
                (next + c) as u64,
            )
        }
}

proof fn lemma_copies_before_monotone(layers: Seq<LayerView>, base: int, targets: Seq<u64>, k: int)
    requires
        0 <= k,
    ensures
        0 <= copies_before(layers, base, targets, k) <= k,
        forall|j: int|
            0 <= j <= k ==> 0 <= #[trigger] copies_before(layers, base, targets, j)
                <= copies_before(layers, base, targets, k),
    decreases k,
{
    if k > 0 {
        lemma_copies_before_monotone(layers, base, targets, k - 1);
    }
}

/// `copies_before` only reads the part of the stack built so far.
proof fn lemma_copies_before_prefix(
    a: Seq<LayerView>,
    b: Seq<LayerView>,
    base: int,
    targets: Seq<u64>,
    k: int,
)
    requires
        0 <= k,
        0 <= base,
        base + copies_before(a, base, targets, k) <= a.len(),
        base + copies_before(a, base, targets, k) <= b.len(),
        a.take(base + copies_before(a, base, targets, k)) == b.take(
            base + copies_before(a, base, targets, k),
        ),
    ensures
        copies_before(a, base, targets, k) == copies_before(b, base, targets, k),
    decreases k,
{
    if k > 0 {
        let c = copies_before(a, base, targets, k - 1);
        lemma_copies_before_monotone(a, base, targets, k);
        let m = base + copies_before(a, base, targets, k);
        assert(a.take(base + c) =~= a.take(m).take(base + c));
        assert(b.take(base + c) =~= b.take(m).take(base + c));
        lemma_copies_before_prefix(a, b, base, targets, k - 1);
    }
}

fn copy_name(name: &String) -> (r: String)
    ensures
        r@ == name@ + " copy"@,
{
    let mut r = name.clone();
    r.append(" copy");
    r
}

/// Duplicates every targeted layer (see `targets_of`), appending each copy
/// on top of the stack under a freshly allocated id with " copy" added to its
/// name, selects the copies and records the previous state for undo. Returns
/// the ids of the copies, so that the caller can nudge their positions.
/// With nothing targeted, nothing changes.
pub fn do_duplicate(project: &mut Project, selected: &mut Vec<u64>, history: &mut History) -> (new_ids: Vec<u64>)
    requires
        old(project).next_id + targets_of(old(project).selected_layer, old(selected)@).len()
            <= u64::MAX,
    ensures
        ({
            let targets = targets_of(old(project).selected_layer, old(selected)@);
            let n = final(project)@.layers.len() - old(project)@.layers.len();
            &&& targets.len() == 0 ==> *final(project) == *old(project) && final(selected)@ == old(
                selected,
            )@ && final(history)@ == old(history)@ && new_ids@.len() == 0
            &&& targets.len() > 0 ==> {
                &&& duplicated(
                    old(project)@.layers,
                    targets,
                    old(project).next_id,
                    final(project)@.layers,
                )
                &&& new_ids@ == Seq::new(n as nat, |j: int| (old(project).next_id + j) as u64)
                &&& final(selected)@ == new_ids@
                &&& final(project).next_id == old(project).next_id + n
                &&& n > 0 ==> final(project).selected_layer == Some(
                    (old(project).next_id + n - 1) as u64,
                )
                &&& n == 0 ==> final(project).selected_layer is None
                &&& selection_in_sync(final(project).selected_layer, final(selected)@)
                &&& final(project).canvas_width == old(project).canvas_width
                &&& final(project).canvas_height == old(project).canvas_height
                &&& final(project).background == old(project).background
                &&& committed(old(history)@, final(history)@, old(project)@)
            }
        }),
{
    let targets = selection_or_primary(project, selected);
    if targets.is_empty() {
        return Vec::new();
    }
    let before = project.clone();
    let ghost base = old(project)@.layers.len() as int;
    let ghost next0 = old(project).next_id;
    let ghost tseq = targets@;
    let mut new_ids: Vec<u64> = Vec::new();
    let mut k: usize = 0;
    assert(project@.layers.take(base) =~= old(project)@.layers);
    while k < targets.len()
        invariant
            targets@ == tseq,
            tseq == targets_of(old(project).selected_layer, old(selected)@),
            next0 == old(project).next_id,
            next0 + tseq.len() <= u64::MAX,
            base == old(project)@.layers.len(),
            k <= targets.len(),
            project@.layers.len() == base + copies_before(project@.layers, base, tseq, k as int),
            project@.layers.take(base) == old(project)@.layers,
            new_ids@ == Seq::new(
                copies_before(project@.layers, base, tseq, k as int) as nat,
                |j: int| (next0 + j) as u64,
            ),
            project.next_id == next0 + copies_before(project@.layers, base, tseq, k as int),
            project.selected_layer == old(project).selected_layer,
            project.canvas_width == old(project).canvas_width,
            project.canvas_height == old(project).canvas_height,
            project.background == old(project).background,
            forall|kk: int|
                #![trigger copies_before(project@.layers, base, tseq, kk)]
                0 <= kk < k ==> {
                    let c = copies_before(project@.layers, base, tseq, kk);
                    has_id(project@.layers.take(base + c), tseq[kk]) ==> is_copy_of(
                        project@.layers[base + c],
                        project@.layers[first_with_id(project@.layers.take(base + c), tseq[kk])],
                        (next0 + c) as u64,
                    )
                },
        decreases targets.len() - k,
    {
        let ghost r = project@.layers;
        let ghost c = copies_before(r, base, tseq, k as int);
        proof {
            lemma_copies_before_monotone(r, base, tseq, k as int);
            assert(r.take(base + c) =~= r);
        }
        let sel = targets[k];
        let found = match project.find_layer(sel) {
            Some(layer) => Some(layer.clone()),
            None => None,
        };
        match found {
            Some(layer) => {
                let new_id = project.alloc_id();
                let mut copy = layer;
                copy.id = new_id;
                copy.name = copy_name(&copy.name);
                let ghost copy_view = copy@;
                project.layers.push(copy);
                new_ids.push(new_id);
                proof {
                    let r2 = project@.layers;
                    assert(r2.take(base + c) =~= r);
                    assert(r2.take(r2.len() as int) =~= r2);
                    lemma_copies_before_prefix(r, r2, base, tseq, k as int);
                    assert forall|j: int| 0 <= j <= k implies copies_before(r2, base, tseq, j)
                        == #[trigger] copies_before(r, base, tseq, j) by {
                        lemma_copies_before_monotone(r, base, tseq, k as int);
                        let cj = copies_before(r, base, tseq, j);
                        assert(r.take(base + cj) =~= r2.take(base + cj));
                        lemma_copies_before_monotone(r, base, tseq, j);
                        lemma_copies_before_prefix(r, r2, base, tseq, j);
                    }
                    assert(copies_before(r2, base, tseq, k + 1) == c + 1);
                    assert(r2.take(base) =~= r.take(base));
                    assert(new_ids@ =~= Seq::new((c + 1) as nat, |j: int| (next0 + j) as u64));
                    assert forall|kk: int|
                        #![trigger copies_before(r2, base, tseq, kk)]
                        0 <= kk < k + 1 implies {
                            let ck = copies_before(r2, base, tseq, kk);
                            has_id(r2.take(base + ck), tseq[kk]) ==> is_copy_of(
                                r2[base + ck],
                                r2[first_with_id(r2.take(base + ck), tseq[kk])],
                                (next0 + ck) as u64,
                            )
                        } by {
                        let ck = copies_before(r2, base, tseq, kk);
                        assert(ck == copies_before(r, base, tseq, kk));
                        lemma_copies_before_monotone(r, base, tseq, k as int);
                        assert(r2.take(base + ck) =~= r.take(base + ck));
                        if kk == k {
                            assert(ck == c);
                            assert(r2.take(base + ck) =~= r);
                            lemma_has_id_first(r, sel);
                            let f = first_with_id(r, sel);
                            assert(r2[f] == r[f]);
                            assert(r2[base + ck] == copy_view);
                            assert(is_copy_of(copy_view, r[f], (next0 + c) as u64));
                        } else {
                            if has_id(r.take(base + ck), tseq[kk]) {
                                assert(copies_before(r, base, tseq, kk + 1) == ck + 1);
                                assert(copies_before(r, base, tseq, kk + 1) <= c);
                                lemma_has_id_first(r.take(base + ck), tseq[kk]);
                                let f = first_with_id(r.take(base + ck), tseq[kk]);
                                assert(r2[f] == r[f]);
                                assert(r2[base + ck] == r[base + ck]);
                            }
                        }
                    }
                }
            },
            None => {
                proof {
                    let r2 = project@.layers;
                    assert(copies_before(r2, base, tseq, k + 1) == c);
                }
            },
        }
        k = k + 1;
    }
    if new_ids.len() > 0 {
        project.selected_layer = Some(new_ids[new_ids.len() - 1]);
    } else {
        project.selected_layer = None;
    }
    let ids = new_ids.clone();
    assert(ids@ =~= new_ids@);
    *selected = ids;
    history.push(before);
    proof {
        let u = old(history)@.undo.push(before);
        assert(history@.undo.last() == before);
        assert(committed(old(history)@, history@, old(project)@));
        assert(duplicated(old(project)@.layers, tseq, next0, project@.layers));
        let n = project@.layers.len() - old(project)@.layers.len();
        assert(new_ids@ == Seq::new(n as nat, |j: int| (next0 + j) as u64));
        assert(selected@ == new_ids@);
        assert(project.next_id == next0 + n);
        assert(n > 0 ==> new_ids@[n - 1] == (next0 + n - 1) as u64);
        assert(n > 0 ==> project.selected_layer == Some((next0 + n - 1) as u64));
        assert(n > 0 ==> selected@.contains(new_ids@[n - 1]));
        lemma_copies_before_monotone(project@.layers, base, tseq, tseq.len() as int);
        assert forall|a: int, b: int|
            0 <= a < selected@.len() && 0 <= b < selected@.len() && a != b implies selected@[a]
            != selected@[b] by {
            assert(selected@[a] == (next0 + a) as u64);
            assert(selected@[b] == (next0 + b) as u64);
        }
        assert(selected@.no_duplicates());
    }
    new_ids
}

/// Copy number `m` was made while handling one of the first `k` targets.
spec fn copy_made(after: Seq<LayerView>, base: int, targets: Seq<u64>, k: int, m: int) -> bool {
    exists|j: int|
        0 <= j < k && #[trigger] copies_before(after, base, targets, j) == m && has_id(
            after.take(base + m),
            targets[j],
        )
}

proof fn lemma_copy_positions(after: Seq<LayerView>, base: int, targets: Seq<u64>, k: int)
    requires
        0 <= k,
    ensures
        forall|m: int|
            0 <= m < copies_before(after, base, targets, k) ==> #[trigger] copy_made(
                after,
                base,
                targets,
                k,
                m,
            ),
    decreases k,
{
    if k > 0 {
        lemma_copy_positions(after, base, targets, k - 1);
        let c = copies_before(after, base, targets, k - 1);
        assert forall|m: int| 0 <= m < copies_before(after, base, targets, k) implies #[trigger] copy_made(
            after,
            base,
            targets,
            k,
            m,
        ) by {
            if m == c {
                assert(copies_before(after, base, targets, k - 1) == m);
            } else {
                assert(copy_made(after, base, targets, k - 1, m));
                let j = choose|j: int|
                    0 <= j < k - 1 && #[trigger] copies_before(after, base, targets, j) == m
                        && has_id(after.take(base + m), targets[j]);
                assert(copies_before(after, base, targets, j) == m);
            }
        }
    }
}

/// Duplicating keeps layer ids unique and below `next_id`: every copy gets
/// an id that was never handed out before.
pub proof fn lemma_duplicate_keeps_ids_valid(
    before: Seq<LayerView>,
    targets: Seq<u64>,
    next: u64,
    after: Seq<LayerView>,
)
    requires
        ids_valid(before, next),
        duplicated(before, targets, next, after),
        next + (after.len() - before.len()) <= u64::MAX,
    ensures
        ids_valid(after, (next + (after.len() - before.len())) as u64),
{
    let base = before.len() as int;
    let n = after.len() - base;
    lemma_copies_before_monotone(after, base, targets, targets.len() as int);
    lemma_copy_positions(after, base, targets, targets.len() as int);
    assert forall|p: int| base <= p < after.len() implies #[trigger] after[p].id == next + (p
        - base) by {
        let m = p - base;
        assert(copy_made(after, base, targets, targets.len() as int, m));
        let j = choose|j: int|
            0 <= j < targets.len() && #[trigger] copies_before(after, base, targets, j) == m
                && has_id(after.take(base + m), targets[j]);
        assert(copies_before(after, base, targets, j) == m);
    }
    assert forall|i: int| 0 <= i < base implies #[trigger] after[i] == before[i] by {
        assert(after.take(base)[i] == after[i]);
    }
    assert forall|i: int| 0 <= i < after.len() implies #[trigger] after[i].id < next + n by {
        if i < base {
            assert(before[i].id < next);
        }
    }
    assert forall|i: int, j: int|
        0 <= i < j < after.len() implies #[trigger] after[i].id != #[trigger] after[j].id by {
        if j < base {
            assert(before[i].id != before[j].id);
        } else if i < base {
            assert(before[i].id < next);
        }
    }
}

proof fn lemma_filter_keeps_ids_valid(layers: Seq<LayerView>, targets: Seq<u64>, next: u64)
    requires
        ids_valid(layers, next),
    ensures
        ids_valid(without_ids(layers, targets), next),
        forall|i: int|
            0 <= i < without_ids(layers, targets).len() ==> layers.contains(
                #[trigger] without_ids(layers, targets)[i],
            ),
    decreases layers.len(),
{
    reveal_with_fuel(Seq::filter, 1);
    if layers.len() > 0 {
        let init = layers.drop_last();
        assert forall|i: int, j: int| 0 <= i < j < init.len() implies #[trigger] init[i].id
            != #[trigger] init[j].id by {
            assert(layers[i].id != layers[j].id);
        }
        assert forall|i: int| 0 <= i < init.len() implies #[trigger] init[i].id < next by {
            assert(layers[i].id < next);
        }
        lemma_filter_keeps_ids_valid(init, targets, next);
        let f = without_ids(init, targets);
        let last = layers.last();
        assert forall|i: int| 0 <= i < f.len() implies #[trigger] f[i].id != last.id by {
            assert(init.contains(f[i]));
            let w = choose|w: int| 0 <= w < init.len() && init[w] == f[i];
            assert(layers[w].id != layers[layers.len() - 1].id);
        }
        assert forall|i: int| 0 <= i < f.len() implies layers.contains(#[trigger] f[i]) by {
            assert(init.contains(f[i]));
            let w = choose|w: int| 0 <= w < init.len() && init[w] == f[i];
            assert(layers[w] == f[i]);
        }
        assert(layers[layers.len() - 1] == last);
    }
}

/// Deleting layers keeps layer ids unique and below `next_id`.
pub proof fn lemma_delete_keeps_ids_valid(layers: Seq<LayerView>, targets: Seq<u64>, next: u64)
    requires
        ids_valid(layers, next),
    ensures
        ids_valid(without_ids(layers, targets), next),
{
    lemma_filter_keeps_ids_valid(layers, targets, next);
}

/// `l` is an image layer serving as the screen photo of frame `frame_id`.
pub open spec fn is_screen_of(l: LayerView, frame_id: u64) -> bool {
    l.kind matches LayerKindView::Image(img) && img.linked_frame_id == Some(frame_id)
}

/// `i` is the position of the bottom-most screen photo of frame `frame_id`.
pub open spec fn is_first_screen_of(layers: Seq<LayerView>, frame_id: u64, i: int) -> bool {
    &&& 0 <= i < layers.len()
    &&& is_screen_of(layers[i], frame_id)
    &&& forall|j: int| 0 <= j < i ==> !#[trigger] is_screen_of(layers[j], frame_id)
}

/// The id of the bottom-most screen photo of frame `frame_id`, if any.
pub open spec fn screen_photo_of(layers: Seq<LayerView>, frame_id: u64) -> Option<u64> {
    if exists|i: int| is_first_screen_of(layers, frame_id, i) {
        Some(layers[choose|i: int| is_first_screen_of(layers, frame_id, i)].id)
    } else {
        None
    }
}

/// Finds the Image layer linked to a device frame, i.e. the photo already
/// sitting behind that frame's screen (the bottom-most one, if several).
pub fn find_screen_image_for_frame(project: &Project, frame_id: u64) -> (r: Option<u64>)
    ensures
        r == screen_photo_of(project@.layers, frame_id),
{
    let mut i: usize = 0;
    while i < project.layers.len()
        invariant
            i <= project.layers.len(),
            forall|j: int| 0 <= j < i ==> !#[trigger] is_screen_of(project@.layers[j], frame_id),
        decreases project.layers.len() - i,
    {
        let layer = &project.layers[i];
        let linked = match &layer.kind {
            LayerKind::Image(img) => match img.linked_frame_id {
                Some(f) => f == frame_id,
                None => false,
            },
            _ => false,
        };
        if linked {
            proof {
                let layers = project@.layers;
                assert(is_first_screen_of(layers, frame_id, i as int));
                let k = choose|k: int| is_first_screen_of(layers, frame_id, k);
                if k < i {
                    assert(!is_screen_of(layers[k], frame_id));
                } else if i < k {
                    assert(!is_screen_of(layers[i as int], frame_id));
                }
            }
            return Some(layer.id);
        }
        i = i + 1;
    }
    proof {
        let layers = project@.layers;
        if exists|k: int| is_first_screen_of(layers, frame_id, k) {
            let k = choose|k: int| is_first_screen_of(layers, frame_id, k);
            assert(!is_screen_of(layers[k], frame_id));
        }
    }
    None
}

/// The device-frame kind of layer `id`; `Phone` when `id` is not a device
/// frame (or no such layer exists).
pub fn frame_kind(project: &Project, id: u64) -> (r: FrameKind)
    ensures
        r == match layer_with_id(project@.layers, id) {
            Some(l) => match l.kind {
                LayerKindView::DeviceFrame(f) => f.kind,
                _ => FrameKind::Phone,
            },
            None => FrameKind::Phone,
        },
{
    proof {
        if has_id(project@.layers, id) {
            lemma_has_id_first(project@.layers, id);
        }
    }
    match project.find_layer(id) {
        Some(l) => match &l.kind {
            LayerKind::DeviceFrame(f) => f.kind,
            _ => FrameKind::Phone,
        },
        None => FrameKind::Phone,
    }
}

/// The screen-photo layer of `id` when `id` is a device frame with one
/// attached; used to move and resize the two together.
pub fn linked_screen_photo(project: &Project, id: u64) -> (r: Option<u64>)
    ensures
        r == if layer_with_id(project@.layers, id) matches Some(l) && l.kind is DeviceFrame {
            screen_photo_of(project@.layers, id)
        } else {
            None
        },
{
    proof {
        if has_id(project@.layers, id) {
            lemma_has_id_first(project@.layers, id);
        }
    }
    let is_frame = match project.find_layer(id) {
        Some(l) => match &l.kind {
            LayerKind::DeviceFrame(_) => true,
            _ => false,
        },
        None => false,
    };
    if is_frame {
        find_screen_image_for_frame(project, id)
    } else {
        None
    }
}

/// Shows a hidden layer or hides a visible one (the first with id `id`),
/// recording the previous state for undo.
pub fn toggle_layer_visibility(project: &mut Project, history: &mut History, id: u64)
    ensures
        final(project)@ == (ProjectView {
            layers: match layer_with_id(old(project)@.layers, id) {
                Some(l) => old(project)@.layers.update(
                    first_with_id(old(project)@.layers, id),
                    LayerView { visible: !l.visible, ..l },
                ),
                None => old(project)@.layers,
            },
            ..old(project)@
        }),
        committed(old(history)@, final(history)@, old(project)@),
{
    let before = project.clone();
    proof {
        if has_id(project@.layers, id) {
            lemma_has_id_first(project@.layers, id);
        }
    }
    match project.find_layer_mut(id) {
        Some(l) => {
            l.visible = !l.visible;
        },
        None => {},
    }
    proof {
        let f = first_with_id(old(project)@.layers, id);
        assert(project@.layers =~= match layer_with_id(old(project)@.layers, id) {
            Some(l) => old(project)@.layers.update(f, LayerView { visible: !l.visible, ..l }),
            None => old(project)@.layers,
        });
    }
    history.push(before);
}

/// Swaps the layer at position `idx` with the one above it, recording the
/// previous state for undo.
pub fn move_layer_up(project: &mut Project, history: &mut History, idx: usize)
    requires
        idx + 1 < old(project).layers.len(),
    ensures
        final(project)@ == (ProjectView {
            layers: old(project)@.layers.update(idx as int, old(project)@.layers[idx + 1]).update(
                idx + 1,
                old(project)@.layers[idx as int],
            ),
            ..old(project)@
        }),
        committed(old(history)@, final(history)@, old(project)@),
{
    let before = project.clone();
    let upper = project.layers.remove(idx + 1);
    project.layers.insert(idx, upper);
    proof {
        assert(project@.layers =~= old(project)@.layers.update(
            idx as int,
            old(project)@.layers[idx + 1],
        ).update(idx + 1, old(project)@.layers[idx as int]));
    }
    history.push(before);
}

/// Swaps the layer at position `idx` with the one below it, recording the
/// previous state for undo.
pub fn move_layer_down(project: &mut Project, history: &mut History, idx: usize)
    requires
        0 < idx < old(project).layers.len(),
    ensures
        final(project)@ == (ProjectView {
            layers: old(project)@.layers.update(idx as int, old(project)@.layers[idx - 1]).update(
                idx - 1,
                old(project)@.layers[idx as int],
            ),
            ..old(project)@
        }),
        committed(old(history)@, final(history)@, old(project)@),
{
    let before = project.clone();
    let lower = project.layers.remove(idx - 1);
    project.layers.insert(idx, lower);
    proof {
        assert(project@.layers =~= old(project)@.layers.update(
            idx as int,
            old(project)@.layers[idx - 1],
        ).update(idx - 1, old(project)@.layers[idx as int]));
    }
    history.push(before);
}

/// Adds a new visible layer on top of the stack under a freshly allocated
/// id, selects it alone and records the previous state for undo; the
/// content and placement are prepared by the caller (image, text, device
/// frame or shape). Returns the new layer's id.
pub fn do_add_layer(
    project: &mut Project,
    selected: &mut Vec<u64>,
    history: &mut History,
    name: String,
    kind: LayerKind,
    transform: Transform,
) -> (id: u64)
    requires
        old(project).next_id < u64::MAX,
    ensures
        id == old(project).next_id,
        final(project)@ == (ProjectView {
            layers: old(project)@.layers.push(
                LayerView { id, name, visible: true, kind: kind@, transform },
            ),
            next_id: (old(project).next_id + 1) as u64,
            selected_layer: Some(id),
            ..old(project)@
        }),
        final(selected)@ == seq![id],
        committed(old(history)@, final(history)@, old(project)@),
{
    let before = project.clone();
    let id = project.alloc_id();
    let ghost pre = project.layers@;
    project.layers.push(Layer { id, name, visible: true, kind, transform });
    proof {
        assert(project@.layers =~= old(project)@.layers.push(
            LayerView { id, name, visible: true, kind: kind@, transform },
        ));
    }
    select_only(project, selected, id);
    history.push(before);
    id
}

/// Adding a layer keeps layer ids unique and below `next_id`.
pub proof fn lemma_add_keeps_ids_valid(layers: Seq<LayerView>, next: u64, l: LayerView)
    requires
        ids_valid(layers, next),
        l.id == next,
        next < u64::MAX,
    ensures
        ids_valid(layers.push(l), (next + 1) as u64),
{
    assert forall|i: int, j: int|
        0 <= i < j < layers.push(l).len() implies #[trigger] layers.push(l)[i].id
        != #[trigger] layers.push(l)[j].id by {
        if j < layers.len() {
            assert(layers[i].id != layers[j].id);
        } else {
            assert(layers[i].id < next);
        }
    }
}

/// Starts a fresh design: the default project, with its device frame
/// showing the bundled iPhone frame image, and an empty history.
pub fn do_new(project: &mut Project, history: &mut History, photos: &BundledPhotos)
    ensures
        final(history)@.undo.len() == 0,
        final(history)@.redo.len() == 0,
        is_default_canvas(*final(project)),
        is_default_frame(final(project).layers@[0]),
        final(project).layers@[0].kind matches LayerKind::DeviceFrame(f) && f.custom_image_path
            == Some(photos.iphone_frame),
        is_default_headline(final(project).layers@[1]),
        ids_valid(final(project)@.layers, final(project).next_id),
{
    let mut p = Project::default();
    let ghost p0 = p;
    let mut i: usize = 0;
    while i < p.layers.len()
        invariant
            is_default_canvas(p),
            ids_valid(p@.layers, p.next_id),
            i <= 2,
            is_default_frame(p.layers@[0]),
            is_default_headline(p.layers@[1]),
            i == 0 ==> p.layers@[0] == p0.layers@[0],
            i > 0 ==> (p.layers@[0].kind matches LayerKind::DeviceFrame(f) && f.custom_image_path
                == Some(photos.iphone_frame)),
            p0.layers@[0].kind matches LayerKind::DeviceFrame(f) && f.custom_image_path is None,
        decreases 2 - i,
    {
        let ghost prev = p.layers@;
        let ghost prev_view = p@.layers;
        match &mut p.layers[i].kind {
            LayerKind::DeviceFrame(frame) => {
                frame.custom_image_path = Some(photos.iphone_frame.clone());
            },
            _ => {},
        }
        proof {
            assert forall|j: int| 0 <= j < 2 && j != i implies p.layers@[j] == prev[j] by {}
            assert forall|j: int| 0 <= j < 2 implies #[trigger] p@.layers[j].id == prev_view[j].id by {
                assert(p.layers@[j].id == prev[j].id);
            }
        }
        i = i + 1;
    }
    *project = p;
    *history = History::new();
}

/// `l` with its image (if it is an image layer) replaced by `path`, cropped
/// by `crop`.
pub open spec fn with_image(l: LayerView, path: String, crop: Option<CropRect>) -> LayerView {
    match l.kind {
        LayerKindView::Image(img) => LayerView {
            kind: LayerKindView::Image(ImageLayer { path, crop, ..img }),
            ..l
        },
        _ => l,
    }
}

/// Swapping a layer's photo shows the chosen file: an image layer gets
/// exactly `path` and `crop` and keeps its frame link, and nothing else of
/// the layer changes; a layer of another kind stays as it is.
pub proof fn lemma_with_image_shows_the_chosen_photo(
    l: LayerView,
    path: String,
    crop: Option<CropRect>,
)
    ensures
        with_image(l, path, crop).id == l.id,
        with_image(l, path, crop).name == l.name,
        with_image(l, path, crop).visible == l.visible,
        with_image(l, path, crop).transform == l.transform,
        l.kind matches LayerKindView::Image(img) ==> (with_image(l, path, crop).kind matches LayerKindView::Image(
            img2,
        ) && img2.path == path && img2.crop == crop && img2.linked_frame_id == img.linked_frame_id),
        !(l.kind is Image) ==> with_image(l, path, crop) == l,
{
}

fn set_image(project: &mut Project, id: u64, path: String, crop: Option<CropRect>)
    ensures
        final(project)@ == (ProjectView {
            layers: match layer_with_id(old(project)@.layers, id) {
                Some(l) => old(project)@.layers.update(
                    first_with_id(old(project)@.layers, id),
                    with_image(l, path, crop),
                ),
                None => old(project)@.layers,
            },
            ..old(project)@
        }),
{
    proof {
        if has_id(project@.layers, id) {
            lemma_has_id_first(project@.layers, id);
        }
    }
    match project.find_layer_mut(id) {
        Some(l) => match &mut l.kind {
            LayerKind::Image(img) => {
                img.path = path;
                img.crop = crop;
            },
            _ => {},
        },
        None => {},
    }
    proof {
        let f = first_with_id(old(project)@.layers, id);
        assert(project@.layers =~= match layer_with_id(old(project)@.layers, id) {
            Some(l) => old(project)@.layers.update(f, with_image(l, path, crop)),
            None => old(project)@.layers,
        });
    }
}

/// Swaps the photo of image layer `id` for the file `path` (with the crop
/// that fits it to the layer), selects that layer alone and records the
/// previous state for undo.
pub fn do_replace_image(
    project: &mut Project,
    selected: &mut Vec<u64>,
    history: &mut History,
    id: u64,
    path: String,
    crop: Option<CropRect>,
)
    ensures
        final(project)@ == (ProjectView {
            layers: match layer_with_id(old(project)@.layers, id) {
                Some(l) => old(project)@.layers.update(
                    first_with_id(old(project)@.layers, id),
                    with_image(l, path, crop),
                ),
                None => old(project)@.layers,
            },
            selected_layer: Some(id),
            ..old(project)@
        }),
        final(selected)@ == seq![id],
        committed(old(history)@, final(history)@, old(project)@),
        ({
            let before = old(project)@.layers;
            let after = final(project)@.layers;
            let i = first_with_id(before, id);
            &&& after.len() == before.len()
            &&& forall|j: int| 0 <= j < before.len() && j != i ==> after[j] == before[j]
            &&& has_id(before, id) ==> {
                &&& after[i].id == id
                &&& after[i].name == before[i].name
                &&& after[i].visible == before[i].visible
                &&& after[i].transform == before[i].transform
                &&& before[i].kind matches LayerKindView::Image(old_img) ==> (
                after[i].kind matches LayerKindView::Image(img) && img.path == path && img.crop
                    == crop && img.linked_frame_id == old_img.linked_frame_id)
                &&& !(before[i].kind is Image) ==> after[i].kind == before[i].kind
            }
        }),
{
    let before = project.clone();
    proof {
        if has_id(old(project)@.layers, id) {
            lemma_has_id_first(old(project)@.layers, id);
        }
    }
    set_image(project, id, path, crop);
    select_only(project, selected, id);
    history.push(before);
}

/// Puts the photo `path` on the screen of device frame `frame_id`: an
/// existing screen photo of that frame gets the new file (and `crop`);
/// otherwise a new "Screen Photo" image layer linked to the frame, placed by
/// `transform`, is inserted directly below the frame (at the bottom if the
/// frame is not found). The photo layer ends up selected alone and the
/// previous state is recorded for undo. Returns the photo layer's id.
pub fn do_place_screen_photo(
    project: &mut Project,
    selected: &mut Vec<u64>,
    history: &mut History,
    frame_id: u64,
    path: String,
    crop: Option<CropRect>,
    transform: Transform,
) -> (photo_id: u64)
    requires
        old(project).next_id < u64::MAX,
    ensures
        final(selected)@ == seq![photo_id],
        final(project).selected_layer == Some(photo_id),
        committed(old(history)@, final(history)@, old(project)@),
        screen_photo_of(old(project)@.layers, frame_id) matches Some(existing) ==> {
            &&& photo_id == existing
            &&& final(project)@.layers == old(project)@.layers.update(
                first_with_id(old(project)@.layers, existing),
                with_image(
                    old(project)@.layers[first_with_id(old(project)@.layers, existing)],
                    path,
                    crop,
                ),
            )
            &&& final(project).next_id == old(project).next_id
            &&& old(project)@.layers[first_with_id(old(project)@.layers, existing)].kind matches
                LayerKindView::Image(old_img) ==> (final(project)@.layers[first_with_id(
                old(project)@.layers,
                existing,
            )].kind matches LayerKindView::Image(img) && img.path == path && img.crop == crop
                && img.linked_frame_id == old_img.linked_frame_id)
        },
        screen_photo_of(old(project)@.layers, frame_id) is None ==> {
            let at = if has_id(old(project)@.layers, frame_id) {
                first_with_id(old(project)@.layers, frame_id)
            } else {
                0
            };
            &&& photo_id == old(project).next_id
            &&& final(project).next_id == old(project).next_id + 1
            &&& final(project)@.layers == old(project)@.layers.insert(
                at,
                LayerView {
                    id: photo_id,
                    name: final(project)@.layers[at].name,
                    visible: true,
                    kind: LayerKindView::Image(
                        ImageLayer { path, crop, linked_frame_id: Some(frame_id) },
                    ),
                    transform,
                },
            )
            &&& final(project)@.layers[at].name@ == "Screen Photo"@
        },
        final(project).canvas_width == old(project).canvas_width,
        final(project).canvas_height == old(project).canvas_height,
        final(project).background == old(project).background,
{
    let before = project.clone();
    let photo_id = match find_screen_image_for_frame(project, frame_id) {
        Some(existing) => {
            proof {
                let layers = old(project)@.layers;
                let k = choose|k: int| is_first_screen_of(layers, frame_id, k);
                assert(layers[k].id == existing);
                lemma_has_id_first(layers, existing);
            }
            set_image(project, existing, path, crop);
            existing
        },
        None => {
            let new_id = project.alloc_id();
            let at = match project.layer_index(frame_id) {
                Some(i) => i,
                None => 0,
            };
            proof {
                if has_id(project@.layers, frame_id) {
                    lemma_first_with_id(project@.layers, frame_id, at as int);
                }
            }
            let ghost name_view = "Screen Photo"@;
            let layer = Layer {
                id: new_id,
                name: "Screen Photo".to_owned(),
                visible: true,
                kind: LayerKind::Image(ImageLayer { path, crop, linked_frame_id: Some(frame_id) }),
                transform,
            };
            let ghost lv = layer@;
            project.layers.insert(at, layer);
            proof {
                assert(project@.layers =~= old(project)@.layers.insert(at as int, lv));
            }
            new_id
        },
    };
    select_only(project, selected, photo_id);
    history.push(before);
    photo_id
}

/// Handles a plain or shift/cmd click on the canvas, given the topmost
/// visible layer under the pointer (`hit`): an additive click toggles that
/// layer in the multi-selection, a plain click selects it alone, a plain
/// click on empty canvas deselects everything, and an additive click on
/// empty canvas changes nothing.
pub fn on_canvas_click(project: &mut Project, selected: &mut Vec<u64>, hit: Option<u64>, additive: bool)
    ensures
        final(project).layers == old(project).layers,
        final(project).next_id == old(project).next_id,
        final(project).canvas_width == old(project).canvas_width,
        final(project).canvas_height == old(project).canvas_height,
        final(project).background == old(project).background,
        match hit {
            Some(id) => if additive {
                (final(project).selected_layer, final(selected)@) == toggled(
                    old(project).selected_layer,
                    old(selected)@,
                    id,
                )
            } else {
                final(project).selected_layer == Some(id) && final(selected)@ == seq![id]
            },
            None => if additive {
                final(project).selected_layer == old(project).selected_layer && final(selected)@
                    == old(selected)@
            } else {
                final(project).selected_layer is None && final(selected)@.len() == 0
            },
        },
{
    match hit {
        Some(id) => {
            if additive {
                toggle_selection(project, selected, id);
            } else {
                select_only(project, selected, id);
            }
        },
        None => {
            if !additive {
                clear_selection(project, selected);
            }
        },
    }
}

/// The background type shown in the background panel: 0 for a solid colour,
/// 1 for a gradient, 2 for an image.
pub fn background_kind_index(bg: &Background) -> (r: usize)
    ensures
        r == background_kind_index_spec(*bg),
{
    match bg {
        Background::Color(_) => 0,
        Background::Gradient { .. } => 1,
        Background::Image { .. } => 2,
    }
}

/// The background-type index of `bg` (see `background_kind_index`).
pub open spec fn background_kind_index_spec(bg: Background) -> usize {
    match bg {
        Background::Color(_) => 0usize,
        Background::Gradient { .. } => 1usize,
        Background::Image { .. } => 2usize,
    }
}

/// The bit pattern of `45.0`, the angle of a new gradient.
pub const BITS_45: u32 = 0x4234_0000;

/// Switches the background to a fresh one of another type (0: light grey,
/// 1: pink-to-blue gradient at 45 degrees, anything else: an image not yet
/// chosen), recording the previous state for undo; choosing the current type
/// changes nothing.
pub fn do_set_background_kind(project: &mut Project, history: &mut History, kind: usize)
    ensures
        kind == background_kind_index_spec(old(project).background) ==> *final(project) == *old(
            project,
        ) && final(history)@ == old(history)@,
        kind != background_kind_index_spec(old(project).background) ==> {
            &&& final(project).layers == old(project).layers
            &&& final(project).next_id == old(project).next_id
            &&& final(project).selected_layer == old(project).selected_layer
            &&& final(project).canvas_width == old(project).canvas_width
            &&& final(project).canvas_height == old(project).canvas_height
            &&& committed(old(history)@, final(history)@, old(project)@)
            &&& kind == 0 ==> (final(project).background matches Background::Color(c) && c@ == seq![
                245u8,
                246u8,
                248u8,
                255u8,
            ])
            &&& kind == 1 ==> (final(project).background matches Background::Gradient {
                from,
                to,
                angle_deg,
            } && from@ == seq![255u8, 200u8, 220u8, 255u8] && to@ == seq![180u8, 200u8, 255u8, 255u8]
                && angle_deg == crate::model::F32Bits(BITS_45))
            &&& kind > 1 ==> (final(project).background matches Background::Image { path }
                && path@.len() == 0)
        },
{
    let current = background_kind_index(&project.background);
    if kind == current {
        return ;
    }
    let before = project.clone();
    project.background = if kind == 0 {
        Background::Color([245, 246, 248, 255])
    } else if kind == 1 {
        Background::Gradient {
            from: [255, 200, 220, 255],
            to: [180, 200, 255, 255],
            angle_deg: crate::model::F32Bits(BITS_45),
        }
    } else {
        Background::Image { path: String::new() }
    };
    proof {
        match project.background {
            Background::Color(c) => {
                assert(c@ =~= seq![245u8, 246u8, 248u8, 255u8]);
            },
            Background::Gradient { from, to, angle_deg } => {
                assert(from@ =~= seq![255u8, 200u8, 220u8, 255u8]);
                assert(to@ =~= seq![180u8, 200u8, 255u8, 255u8]);
            },
            _ => {},
        }
    }
    history.push(before);
}

/// The label of the light/dark theme switch: it names the theme that a click
/// switches to.
pub fn theme_toggle_label(dark_mode: bool) -> (r: String)
    ensures
        dark_mode ==> r@ == "\u{2600} Light Mode"@,
        !dark_mode ==> r@ == "\u{1F319} Dark Mode"@,
{
    if dark_mode {
        "\u{2600} Light Mode".to_owned()
    } else {
        "\u{1F319} Dark Mode".to_owned()
    }
}

/// The multi-selection brought back in step with the primary layer
/// `primary`: kept when already in step, otherwise just the primary layer
/// (or nothing).
pub open spec fn resynced(primary: Option<u64>, selected: Seq<u64>) -> Seq<u64> {
    if selection_in_sync(primary, selected) {
        selected
    } else {
        match primary {
            Some(p) => seq![p],
            None => Seq::empty(),
        }
    }
}

fn no_duplicate_ids(v: &Vec<u64>) -> (r: bool)
    ensures
        r == v@.no_duplicates(),
{
    let mut i: usize = 0;
    while i < v.len()
        invariant
            i <= v.len(),
            forall|a: int, b: int|
                0 <= a < i && 0 <= b < v.len() && a != b ==> v@[a] != v@[b],
        decreases v.len() - i,
    {
        let mut j: usize = 0;
        while j < v.len()
            invariant
                i < v.len(),
                j <= v.len(),
                forall|a: int, b: int|
                    0 <= a < i && 0 <= b < v.len() && a != b ==> v@[a] != v@[b],
                forall|b: int| 0 <= b < j && b != i ==> v@[i as int] != v@[b],
            decreases v.len() - j,
        {
            if j != i && v[i] == v[j] {
                return false;
            }
            j = j + 1;
        }
        i = i + 1;
    }
    true
}

/// Brings the multi-selection back in step with the project's primary
/// selection (see `resynced`), as after the project was replaced by an undo
/// or redo snapshot.
pub fn resync_selection(project: &Project, selected: &mut Vec<u64>)
    ensures
        final(selected)@ == resynced(project.selected_layer, old(selected)@),
        selection_in_sync(project.selected_layer, final(selected)@),
{
    let unique = no_duplicate_ids(selected);
    let in_step = match project.selected_layer {
        Some(p) => unique && match position_of(selected, p) {
            Some(_) => true,
            None => false,
        },
        None => selected.len() == 0,
    };
    if !in_step {
        match project.selected_layer {
            Some(p) => {
                *selected = vec![p];
                assert(selected@ =~= seq![p]);
            },
            None => {
                selected.clear();
            },
        }
    }
}

/// Undo right after a committed edit brings back the project exactly as it
/// was before the edit; the edited state becomes the only redo step, and
/// (while the history is below its limit) the undo steps are again those
/// from before the edit.
pub proof fn lemma_undo_reverts_edit(
    old_h: HistoryView,
    new_h: HistoryView,
    before: ProjectView,
    edited: Project,
)
    requires
        old_h.bounded(),
        committed(old_h, new_h, before),
    ensures
        new_h.undone(edited).0 matches Some(p) && p@ == before,
        new_h.undone(edited).1.redo == seq![edited],
        old_h.undo.len() < MAX_HISTORY ==> new_h.undone(edited).1.undo == old_h.undo,
{
    let x = new_h.undo.last();
    lemma_undo_after_push(old_h, x, edited);
    if old_h.undo.len() < MAX_HISTORY {
        assert(old_h.undo.push(x).drop_last() =~= old_h.undo);
    }
}

/// Steps back to the newest undo snapshot, keeping the current state for
/// redo, and brings the multi-selection back in step with the restored
/// primary selection. Returns whether there was anything to undo.
pub fn do_undo(project: &mut Project, selected: &mut Vec<u64>, history: &mut History) -> (changed: bool)
    ensures
        changed == (old(history)@.undo.len() > 0),
        !changed ==> *final(project) == *old(project) && final(history)@ == old(history)@
            && final(selected)@ == old(selected)@,
        changed ==> final(selected)@ == resynced(final(project).selected_layer, old(selected)@),
        changed ==> selection_in_sync(final(project).selected_layer, final(selected)@),
        changed ==> {
            &&& *final(project) == old(history)@.undo.last()
            &&& final(history)@.undo == old(history)@.undo.drop_last()
            &&& final(history)@.redo.len() == old(history)@.redo.len() + 1
            &&& final(history)@.redo.drop_last() == old(history)@.redo
            &&& final(history)@.redo.last()@ == old(project)@
        },
{
    let current = project.clone();
    match history.undo(current) {
        Some(prev) => {
            *project = prev;
            resync_selection(project, selected);
            proof {
                assert(final(history)@.redo.drop_last() =~= old(history)@.redo);
            }
            true
        },
        None => false,
    }
}

/// Steps forward to the newest redo snapshot, keeping the current state for
/// undo, and brings the multi-selection back in step with the restored
/// primary selection. Returns whether there was anything to redo.
pub fn do_redo(project: &mut Project, selected: &mut Vec<u64>, history: &mut History) -> (changed: bool)
    ensures
        changed == (old(history)@.redo.len() > 0),
        !changed ==> *final(project) == *old(project) && final(history)@ == old(history)@
            && final(selected)@ == old(selected)@,
        changed ==> final(selected)@ == resynced(final(project).selected_layer, old(selected)@),
        changed ==> selection_in_sync(final(project).selected_layer, final(selected)@),
        changed ==> {
            &&& *final(project) == old(history)@.redo.last()
            &&& final(history)@.redo == old(history)@.redo.drop_last()
            &&& final(history)@.undo.len() == old(history)@.undo.len() + 1
            &&& final(history)@.undo.drop_last() == old(history)@.undo
            &&& final(history)@.undo.last()@ == old(project)@
        },
{
    let current = project.clone();
    match history.redo(current) {
        Some(next) => {
            *project = next;
            resync_selection(project, selected);
            proof {
                assert(final(history)@.undo.drop_last() =~= old(history)@.undo);
            }
            true
        },
        None => false,
    }
}

/// Selection commands keep the multi-selection and the primary selection in
/// step; shift-clicking an unselected layer twice gives back the original
/// list, and shift-clicking a selected one twice keeps the same set.
pub proof fn lemma_selection_stays_in_sync(primary: Option<u64>, selected: Seq<u64>, id: u64)
    requires
        selection_in_sync(primary, selected),
    ensures
        selection_in_sync(toggled(primary, selected, id).0, toggled(primary, selected, id).1),
        !selected.contains(id) ==> toggled(
            toggled(primary, selected, id).0,
            toggled(primary, selected, id).1,
            id,
        ).1 == selected,
        selected.contains(id) ==> toggled(
            toggled(primary, selected, id).0,
            toggled(primary, selected, id).1,
            id,
        ).1.to_set() == selected.to_set(),
{
    if selected.contains(id) {
        let i = choose|i: int| 0 <= i < selected.len() && selected[i] == id;
        assert(is_first_pos(selected, id, i));
        lemma_first_pos(selected, id, i);
        let rest = selected.remove(i);
        assert(rest.no_duplicates());
        assert(!rest.contains(id));
        if let Some(p) = primary {
            if p != id {
                let pi = choose|j: int| 0 <= j < selected.len() && selected[j] == p;
                if pi < i {
                    assert(rest[pi] == p);
                } else {
                    assert(rest[pi - 1] == p);
                }
            } else if rest.len() > 0 {
                assert(rest.contains(rest.last()));
            }
        }
        assert(toggled(primary, selected, id).1 == rest);
        let again = rest.push(id);
        assert(is_first_pos(again, id, rest.len() as int));
        assert forall|x: u64| again.to_set().contains(x) == selected.to_set().contains(x) by {
            if selected.contains(x) {
                let xi = choose|j: int| 0 <= j < selected.len() && selected[j] == x;
                if x != id {
                    if xi < i {
                        assert(again[xi] == x);
                    } else {
                        assert(again[xi - 1] == x);
                    }
                } else {
                    assert(again[rest.len() as int] == x);
                }
            }
            if again.contains(x) {
                let xi = choose|j: int| 0 <= j < again.len() && again[j] == x;
                if xi == rest.len() {
                    assert(selected[i] == x);
                } else if xi < i {
                    assert(selected[xi] == x);
                } else {
                    assert(selected[xi + 1] == x);
                }
            }
        }
        assert(again.to_set() =~= selected.to_set());
    } else {
        let added = selected.push(id);
        assert(added.no_duplicates());
        assert(added[selected.len() as int] == id);
        assert(is_first_pos(added, id, selected.len() as int));
        lemma_first_pos(added, id, selected.len() as int);
        assert(added.remove(selected.len() as int) =~= selected);
    }
}

/// Finds the layer a pointer press lands on: the topmost (last in the
/// stack) visible layer whose box `contains` says holds the pointer.
pub fn hit_test_layer<F: Fn(&Transform) -> bool>(project: &Project, contains: &F) -> (r: Option<u64>)
    requires
        forall|t: &Transform| #[trigger] contains.requires((t,)),
    ensures
        match r {
            Some(id) => exists|k: int|
                0 <= k < project@.layers.len() && project@.layers[k].id == id
                    && project@.layers[k].visible && contains.ensures(
                    (&project@.layers[k].transform,),
                    true,
                ) && forall|j: int|
                    k < j < project@.layers.len() && #[trigger] project@.layers[j].visible
                        ==> contains.ensures((&project@.layers[j].transform,), false),
            None => forall|j: int|
                0 <= j < project@.layers.len() && #[trigger] project@.layers[j].visible
                    ==> contains.ensures((&project@.layers[j].transform,), false),
        },
{
    let mut i: usize = project.layers.len();
    while i > 0
        invariant
            i <= project.layers.len(),
            forall|t: &Transform| #[trigger] contains.requires((t,)),
            forall|j: int|
                i <= j < project@.layers.len() && #[trigger] project@.layers[j].visible
                    ==> contains.ensures((&project@.layers[j].transform,), false),
        decreases i,
    {
        i = i - 1;
        let layer = &project.layers[i];
        if layer.visible {
            let inside = contains(&layer.transform);
            if inside {
                proof {
                    let k = i as int;
                    assert(project@.layers[k].transform == layer.transform);
                    assert(forall|j: int|
                        k < j < project@.layers.len() && #[trigger] project@.layers[j].visible
                            ==> contains.ensures((&project@.layers[j].transform,), false));
                }
                return Some(layer.id);
            }
        }
    }
    None
}

/// The screen photo linked to layer `id`, when `id` is a device frame with
/// one attached.
pub open spec fn linked_photo_of(layers: Seq<LayerView>, id: u64) -> Option<u64> {
    if layer_with_id(layers, id) matches Some(l) && l.kind is DeviceFrame {
        screen_photo_of(layers, id)
    } else {
        None
    }
}

/// The device-frame kind of a layer (`Phone` for any other layer).
pub open spec fn kind_of_frame(l: LayerView) -> FrameKind {
    match l.kind {
        LayerKindView::DeviceFrame(f) => f.kind,
        _ => FrameKind::Phone,
    }
}

/// Keeps a device frame's linked screen photo in lockstep with the frame:
/// the photo is moved into the frame's screen area, which `inset` computes
/// (as x, y, width, height) from the frame's transform and kind, and takes
/// the frame's rotation and mirroring. Nothing changes when `id` is not a
/// frame with a linked photo.
pub fn sync_linked_photo_transform<F: Fn(&Transform, FrameKind) -> (F32Bits, F32Bits, F32Bits, F32Bits)>(
    project: &mut Project,
    id: u64,
    inset: &F,
)
    requires
        forall|t: &Transform, k: FrameKind| #[trigger] inset.requires((t, k)),
    ensures
        final(project).next_id == old(project).next_id,
        final(project).selected_layer == old(project).selected_layer,
        final(project).canvas_width == old(project).canvas_width,
        final(project).canvas_height == old(project).canvas_height,
        final(project).background == old(project).background,
        match linked_photo_of(old(project)@.layers, id) {
            Some(pid) => {
                let layers = old(project)@.layers;
                let i = first_with_id(layers, pid);
                let frame = layers[first_with_id(layers, id)];
                let t = final(project)@.layers[i].transform;
                &&& final(project)@.layers == layers.update(i, LayerView { transform: t, ..layers[i] })
                &&& t == Transform {
                    x: t.x,
                    y: t.y,
                    width: t.width,
                    height: t.height,
                    rotation_deg: frame.transform.rotation_deg,
                    mirror_h: frame.transform.mirror_h,
                    mirror_v: frame.transform.mirror_v,
                    ..layers[i].transform
                }
                &&& inset.ensures(
                    (&frame.transform, kind_of_frame(frame)),
                    (t.x, t.y, t.width, t.height),
                )
            },
            None => final(project)@.layers == old(project)@.layers,
        },
{
    let photo_id = match linked_screen_photo(project, id) {
        Some(p) => p,
        None => {
            return ;
        },
    };
    proof {
        lemma_has_id_first(project@.layers, id);
        let layers = project@.layers;
        let k = choose|k: int| is_first_screen_of(layers, id, k);
        assert(layers[k].id == photo_id);
        lemma_has_id_first(layers, photo_id);
    }
    let frame_t = match project.find_layer(id) {
        Some(l) => l.transform,
        None => {
            return ;
        },
    };
    let kind = frame_kind(project, id);
    let r = inset(&frame_t, kind);
    match project.find_layer_mut(photo_id) {
        Some(photo) => {
            photo.transform.x = r.0;
            photo.transform.y = r.1;
            photo.transform.width = r.2;
            photo.transform.height = r.3;
            photo.transform.rotation_deg = frame_t.rotation_deg;
            photo.transform.mirror_h = frame_t.mirror_h;
            photo.transform.mirror_v = frame_t.mirror_v;
        },
        None => {},
    }
    proof {
        let layers = old(project)@.layers;
        let i = first_with_id(layers, photo_id);
        assert(project@.layers =~= layers.update(
            i,
            LayerView { transform: project@.layers[i].transform, ..layers[i] },
        ));
    }
}

/// Picks what a canvas drag that starts on layer `hit_id` moves. Grabbing a
/// member of a multi-selection (more than one layer selected) makes it the
/// primary layer and moves the whole selection: the result is `true`.
/// Grabbing any other layer selects it alone and moves just that layer:
/// the result is `false`.
pub fn grab_for_drag(project: &mut Project, selected: &mut Vec<u64>, hit_id: u64) -> (group: bool)
    ensures
        group == (old(selected)@.len() > 1 && old(selected)@.contains(hit_id)),
        group ==> final(selected)@ == old(selected)@,
        !group ==> final(selected)@ == seq![hit_id],
        final(project).selected_layer == Some(hit_id),
        final(project).layers == old(project).layers,
        final(project).next_id == old(project).next_id,
        final(project).canvas_width == old(project).canvas_width,
        final(project).canvas_height == old(project).canvas_height,
        final(project).background == old(project).background,
        selection_in_sync(old(project).selected_layer, old(selected)@) ==> selection_in_sync(
            final(project).selected_layer,
            final(selected)@,
        ),
{
    let member = match position_of(selected, hit_id) {
        Some(_) => true,
        None => false,
    };
    if selected.len() > 1 && member {
        project.selected_layer = Some(hit_id);
        true
    } else {
        select_only(project, selected, hit_id);
        false
    }
}

/// A history command asked for from the keyboard.
#[derive(Clone, Copy, Debug, PartialEq, Eq, Structural)]
pub enum HistoryKey {
    Undo,
    Redo,
}

/// The undo or redo that a key press asks for: only in the editor and only
/// while no text field has the keyboard; Ctrl/Cmd+Z undoes, Ctrl/Cmd+Shift+Z
/// and Ctrl/Cmd+Y redo.
pub fn history_shortcut(
    in_editor: bool,
    text_field_focused: bool,
    command: bool,
    ctrl: bool,
    shift: bool,
    key_z: bool,
    key_y: bool,
) -> (r: Option<HistoryKey>)
    ensures
        r == if !in_editor || text_field_focused {
            None
        } else if (command || ctrl) && key_z && !shift {
            Some(HistoryKey::Undo)
        } else if (command || ctrl) && ((key_z && shift) || key_y) {
            Some(HistoryKey::Redo)
        } else {
            None
        },
{
    if !in_editor || text_field_focused {
        return None;
    }
    let cmd = command || ctrl;
    if cmd && key_z && !shift {
        Some(HistoryKey::Undo)
    } else if cmd && ((key_z && shift) || key_y) {
        Some(HistoryKey::Redo)
    } else {
        None
    }
}

/// Records the state before a canvas drag, once per drag gesture: on the
/// first drag tick of a gesture (`taken` still false) the project goes onto
/// the undo stack and `taken` is set; later ticks of the same gesture change
/// nothing, so a whole drag is undone in one step.
pub fn record_drag_start(project: &Project, history: &mut History, taken: &mut bool)
    ensures
        *final(taken),
        !*old(taken) ==> committed(old(history)@, final(history)@, project@),
        *old(taken) ==> final(history)@ == old(history)@,
{
    if !*taken {
        history.push(project.clone());
        *taken = true;
    }
}

/// A whole canvas drag is one undo step: when a gesture starts with nothing
/// recorded (`taken[0]` false) and each of its `k >= 1` ticks does what
/// `record_drag_start` states (history `hs[j]` before tick `j`, `hs[j + 1]`
/// after it, the flag set from then on), the history at the end is the one
/// from before the gesture with the state `before` pushed once, and undo
/// then brings back exactly `before`.
pub proof fn lemma_drag_is_one_undo_step(
    hs: Seq<HistoryView>,
    taken: Seq<bool>,
    before: ProjectView,
    current: Project,
)
    requires
        hs.len() >= 2,
        taken.len() == hs.len(),
        hs[0].bounded(),
        !taken[0],
        forall|j: int|
            0 <= j < hs.len() - 1 ==> {
                &&& #[trigger] taken[j + 1]
                &&& !taken[j] ==> committed(hs[j], hs[j + 1], before)
                &&& taken[j] ==> hs[j + 1] == hs[j]
            },
    ensures
        committed(hs[0], hs.last(), before),
        hs.last().undone(current).0 matches Some(q) && q@ == before,
    decreases hs.len(),
{
    if hs.len() == 2 {
        assert(taken[0int + 1]);
    } else {
        let n = hs.len() - 1;
        let hs0 = hs.drop_last();
        let t0 = taken.drop_last();
        assert forall|j: int| 0 <= j < hs0.len() - 1 implies {
            &&& #[trigger] t0[j + 1]
            &&& !t0[j] ==> committed(hs0[j], hs0[j + 1], before)
            &&& t0[j] ==> hs0[j + 1] == hs0[j]
        } by {
            assert(taken[j + 1]);
            assert(hs0[j] == hs[j] && hs0[j + 1] == hs[j + 1]);
            assert(t0[j] == taken[j] && t0[j + 1] == taken[j + 1]);
        }
        lemma_drag_is_one_undo_step(hs0, t0, before, current);
        assert(taken[(n - 1) + 1]);
        assert(taken[n - 1]) by {
            assert(taken[(n - 2) + 1]);
        }
        assert(hs[n] == hs[n - 1]);
    }
    lemma_undo_reverts_edit(hs[0], hs.last(), before, current);
}

} // verus!
