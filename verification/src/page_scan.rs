//! Walks the content of a page: takes the pictures out and notes where they stood.
//!
//! The text extractor cannot be shown a picture: it would read the picture's bytes as
//! operations. So every operation that draws a picture is taken out of the content first.
use vstd::prelude::*;

use crate::pdf_parse::{
    as_num, get_media_box, get_resources, number_of, page_box, page_resources, Number,
};
use crate::pdf_source::{
    add_stream, an_entry_is_found_again, as_name, as_reference, as_stream, dictionary_of,
    dictionary_under, document_last_id, document_objects, document_trailer, entries, followed,
    get_dictionary_under, get_entry, get_object, last_id, lookup, object_at, object_model,
    object_models, page_content_of, plain_stream, read_page_content, resting_id, same_bytes,
    set_reference, stream_dictionary, with_entry, ObjectModel, REFERENCE_LIMIT,
};
use crate::text::same_text;

verus! {

#[verifier::external_type_specification]
#[verifier::external_body]
pub struct ExOperation(lopdf::content::Operation);

/// The operator of an operation and its operands.
pub uninterp spec fn operation_model(op: lopdf::content::Operation) -> (
    Seq<char>,
    Seq<ObjectModel>,
);

/// The contents of some operations.
pub open spec fn operation_models(ops: Seq<lopdf::content::Operation>) -> Seq<
    (Seq<char>, Seq<ObjectModel>),
> {
    ops.map_values(|op: lopdf::content::Operation| operation_model(op))
}

/// `lopdf::content::Operation::operator` is the operator of an operation.
#[verifier::external_body]
fn operator_of<'a>(op: &'a lopdf::content::Operation) -> (r: &'a str)
    ensures
        r@ == operation_model(*op).0,
{
    op.operator.as_str()
}

/// `lopdf::content::Operation::operands` are the operands of an operation.
#[verifier::external_body]
fn operands_of<'a>(op: &'a lopdf::content::Operation) -> (r: &'a Vec<lopdf::Object>)
    ensures
        object_models(r@) == operation_model(*op).1,
{
    &op.operands
}

// ---------------------------------------------------------------------------------------
// Taking the pictures out
// ---------------------------------------------------------------------------------------

/// What was found of some operations: those that stay, the drawings of pictures (each with the
/// transformations in effect there, the outermost first, and the picture's index), the
/// transformations in effect, and those that were saved.
#[verifier::ext_equal]
pub ghost struct Scan {
    pub kept: Seq<(Seq<char>, Seq<ObjectModel>)>,
    pub draws: Seq<(Seq<Seq<Number>>, nat)>,
    pub matrices: Seq<Seq<Number>>,
    pub saved: Seq<Seq<Seq<Number>>>,
}

/// The external object that a drawing operation shows: its first operand names it.
pub open spec fn drawn_object(
    operands: Seq<ObjectModel>,
    xobjects: Option<Seq<(Seq<u8>, ObjectModel)>>,
) -> Option<(u32, u16)> {
    if operands.len() == 0 {
        None
    } else {
        match (operands[0], xobjects) {
            (ObjectModel::Name(name), Some(dict)) => match lookup(dict, name) {
                Some(ObjectModel::Reference(id)) => Some(id),
                _ => None,
            },
            _ => None,
        }
    }
}

/// The object of that number is a picture, whether or not it could be extracted.
pub open spec fn is_picture_object(objects: Map<(u32, u16), ObjectModel>, id: (u32, u16)) -> bool {
    match object_at(objects, id) {
        Ok(ObjectModel::Stream(dict, _)) => lookup(dict, vstd::utf8::encode_utf8("Subtype"@))
            == Some(ObjectModel::Name(vstd::utf8::encode_utf8("Image"@))),
        _ => false,
    }
}

/// The operation draws a picture: one of the pictures that were extracted, another one, or one
/// that stands in the content itself.
pub open spec fn draws_picture(
    op: (Seq<char>, Seq<ObjectModel>),
    objects: Map<(u32, u16), ObjectModel>,
    xobjects: Option<Seq<(Seq<u8>, ObjectModel)>>,
    pictures: Seq<(u32, u16)>,
) -> bool {
    ||| op.0 == "BI"@
    ||| op.0 == "Do"@ && match drawn_object(op.1, xobjects) {
        Some(id) => pictures.contains(id) || is_picture_object(objects, id),
        None => false,
    }
}

/// The index of the extracted picture that an operation draws. Where one picture was taken
/// several times, the last counts.
pub open spec fn drawn_picture(
    op: (Seq<char>, Seq<ObjectModel>),
    xobjects: Option<Seq<(Seq<u8>, ObjectModel)>>,
    pictures: Seq<(u32, u16)>,
    base: nat,
) -> Option<nat> {
    if op.0 == "Do"@ {
        match drawn_object(op.1, xobjects) {
            Some(id) => match pictures.index_of_last(id) {
                Some(k) => Some((base + k) as nat),
                None => None,
            },
            None => None,
        }
    } else {
        None
    }
}

/// The numbers of some operands.
pub open spec fn numbers_of(operands: Seq<ObjectModel>) -> Seq<Number> {
    operands.map_values(|o: ObjectModel| number_of(o))
}

/// What is found of some operations. Nothing but the drawing of a picture is taken out. Where
/// the picture is one of those that were extracted, its place is noted.
pub open spec fn scan_of(
    ops: Seq<(Seq<char>, Seq<ObjectModel>)>,
    objects: Map<(u32, u16), ObjectModel>,
    xobjects: Option<Seq<(Seq<u8>, ObjectModel)>>,
    pictures: Seq<(u32, u16)>,
    base: nat,
) -> Scan
    decreases ops.len(),
{
    if ops.len() == 0 {
        Scan {
            kept: Seq::empty(),
            draws: Seq::empty(),
            matrices: Seq::empty(),
            saved: Seq::empty(),
        }
    } else {
        let before = scan_of(ops.drop_last(), objects, xobjects, pictures, base);
        let op = ops.last();
        let kept = before.kept.push(op);
        if op.0 == "q"@ {
            Scan { kept, saved: before.saved.push(before.matrices), ..before }
        } else if op.0 == "Q"@ {
            if before.saved.len() > 0 {
                Scan {
                    kept,
                    matrices: before.saved.last(),
                    saved: before.saved.drop_last(),
                    ..before
                }
            } else {
                Scan { kept, ..before }
            }
        } else if op.0 == "cm"@ && op.1.len() == 6 {
            Scan { kept, matrices: before.matrices.push(numbers_of(op.1)), ..before }
        } else if draws_picture(op, objects, xobjects, pictures) {
            match drawn_picture(op, xobjects, pictures, base) {
                Some(idx) => Scan { draws: before.draws.push((before.matrices, idx)), ..before },
                None => before,
            }
        } else {
            Scan { kept, ..before }
        }
    }
}

/// A transformation and the one that was in effect before it.
#[derive(Debug)]
pub struct Step {
    pub parent: Option<usize>,
    pub matrix: [Number; 6],
}

/// A picture that is drawn under a transformation.
#[derive(Debug)]
pub struct Draw {
    pub step: Option<usize>,
    pub image: usize,
}

/// The content of a page without its pictures, and where they are drawn.
pub struct PageScan {
    pub operations: Vec<lopdf::content::Operation>,
    pub steps: Vec<Step>,
    pub draws: Vec<Draw>,
    /// The media box of the page.
    pub frame: [Number; 4],
}

/// Every step stands behind the one before it.
pub open spec fn steps_are_ordered(steps: Seq<Step>) -> bool {
    forall|i: int|
        0 <= i < steps.len() ==> ((#[trigger] steps[i]).parent matches Some(p) ==> p < i)
}

/// The step is one of the steps, or there is none.
pub open spec fn is_step(steps: Seq<Step>, at: Option<usize>) -> bool {
    at matches Some(i) ==> i < steps.len()
}

/// The transformations in effect at a step, the outermost first.
pub open spec fn chain(steps: Seq<Step>, at: Option<usize>) -> Seq<Seq<Number>>
    decreases
            (match at {
                Some(i) => i as int + 1,
                None => 0,
            }),
{
    match at {
        Some(i) => if i < steps.len() && (steps[i as int].parent matches Some(p) ==> p < i) {
            chain(steps, steps[i as int].parent).push(steps[i as int].matrix@)
        } else {
            Seq::empty()
        },
        None => Seq::empty(),
    }
}

/// The drawings, each with the transformations in effect there.
pub open spec fn draw_views(draws: Seq<Draw>, steps: Seq<Step>) -> Seq<
    (Seq<Seq<Number>>, nat),
> {
    draws.map_values(|d: Draw| (chain(steps, d.step), d.image as nat))
}

proof fn lemma_chain_stays(steps: Seq<Step>, step: Step, at: Option<usize>)
    requires
        is_step(steps, at),
        steps_are_ordered(steps),
    ensures
        chain(steps.push(step), at) == chain(steps, at),
    decreases
            (match at {
                Some(i) => i as int + 1,
                None => 0,
            }),
{
    if let Some(i) = at {
        assert(steps.push(step)[i as int] == steps[i as int]);
        lemma_chain_stays(steps, step, steps[i as int].parent);
    }
}

proof fn lemma_draws_stay(draws: Seq<Draw>, steps: Seq<Step>, step: Step)
    requires
        steps_are_ordered(steps),
        forall|k: int| 0 <= k < draws.len() ==> is_step(steps, (#[trigger] draws[k]).step),
    ensures
        draw_views(draws, steps.push(step)) == draw_views(draws, steps),
{
    assert forall|k: int| 0 <= k < draws.len() implies #[trigger] draw_views(
        draws,
        steps.push(step),
    )[k] == draw_views(draws, steps)[k] by {
        assert(is_step(steps, draws[k].step));
        lemma_chain_stays(steps, step, draws[k].step);
    }
}

/// The steps that were saved, as the transformations in effect at each.
spec fn saved_views(saved: Seq<Option<usize>>, steps: Seq<Step>) -> Seq<Seq<Seq<Number>>> {
    saved.map_values(|at: Option<usize>| chain(steps, at))
}

proof fn lemma_saved_stay(saved: Seq<Option<usize>>, steps: Seq<Step>, step: Step)
    requires
        steps_are_ordered(steps),
        forall|k: int| 0 <= k < saved.len() ==> is_step(steps, #[trigger] saved[k]),
    ensures
        saved_views(saved, steps.push(step)) == saved_views(saved, steps),
{
    assert forall|k: int| 0 <= k < saved.len() implies #[trigger] saved_views(
        saved,
        steps.push(step),
    )[k] == saved_views(saved, steps)[k] by {
        assert(is_step(steps, saved[k]));
        lemma_chain_stays(steps, step, saved[k]);
    }
}

fn last_position(pictures: &Vec<(u32, u16)>, id: (u32, u16)) -> (r: Option<usize>)
    ensures
        match pictures@.index_of_last(id) {
            Some(k) => r == Some(k as usize) && 0 <= k < pictures@.len(),
            None => r is None,
        },
{
    proof {
        pictures@.index_of_last_ensures(id);
    }
    let mut i: usize = pictures.len();
    while i > 0
        invariant
            i <= pictures@.len(),
            forall|k: int| i <= k < pictures@.len() ==> #[trigger] pictures@[k] != id,
            match pictures@.index_of_last(id) {
                Some(index) => 0 <= index < pictures@.len() && pictures@[index] == id && forall|
                    j: int,
                | index < j < pictures@.len() ==> pictures@[j] != id,
                None => !pictures@.contains(id),
            },
        decreases i,
    {
        i = i - 1;
        let here = pictures[i];
        if here.0 == id.0 && here.1 == id.1 {
            assert(pictures@[i as int] == id);
            return Some(i);
        }
    }
    None
}

fn find_drawn(operands: &Vec<lopdf::Object>, xobjects: Option<&lopdf::Dictionary>) -> (r: Option<
    (u32, u16),
>)
    ensures
        r == drawn_object(
            object_models(operands@),
            match xobjects {
                Some(d) => Some(entries(*d)),
                None => None,
            },
        ),
{
    if operands.len() == 0 {
        return None;
    }
    assert(object_models(operands@)[0] == object_model(operands@[0]));
    let name = match as_name(&operands[0]) {
        Ok(name) => name,
        Err(_) => {
            return None;
        },
    };
    let dict = xobjects?;
    let entry = match get_entry(dict, name) {
        Ok(entry) => entry,
        Err(_) => {
            return None;
        },
    };
    match as_reference(entry) {
        Ok(id) => Some(id),
        Err(_) => None,
    }
}

fn is_picture(doc: &lopdf::Document, id: (u32, u16)) -> (r: bool)
    ensures
        r == is_picture_object(document_objects(*doc), id),
{
    let object = match get_object(doc, id) {
        Ok(object) => object,
        Err(_) => {
            return false;
        },
    };
    let stream = match as_stream(object) {
        Ok(stream) => stream,
        Err(_) => {
            return false;
        },
    };
    let entry = match get_entry(stream_dictionary(stream), "Subtype".as_bytes()) {
        Ok(entry) => entry,
        Err(_) => {
            return false;
        },
    };
    match as_name(entry) {
        Ok(name) => same_bytes(name, "Image".as_bytes()),
        Err(_) => false,
    }
}

fn read_matrix(operands: &Vec<lopdf::Object>) -> (r: [Number; 6])
    requires
        operands@.len() == 6,
    ensures
        r@ == numbers_of(object_models(operands@)),
        forall|i: int| #![trigger r@[i]]
            0 <= i < 6 ==> r@[i] == number_of(object_model(operands@[i])),
{
    let matrix = [
        as_num(&operands[0]),
        as_num(&operands[1]),
        as_num(&operands[2]),
        as_num(&operands[3]),
        as_num(&operands[4]),
        as_num(&operands[5]),
    ];
    assert(matrix@ == numbers_of(object_models(operands@)));
    matrix
}

/// Takes every drawing of a picture out of the operations and notes under which transformations
/// it stood: see `scan_of`. Everything else stays, among it the drawing of other external
/// objects. The pictures that were extracted are known by the numbers of their objects, and the
/// first one has the index `base`.
pub fn locate_images(
    ops: Vec<lopdf::content::Operation>,
    doc: &lopdf::Document,
    xobjects: Option<&lopdf::Dictionary>,
    pictures: &Vec<(u32, u16)>,
    base: usize,
    frame: [Number; 4],
) -> (r: PageScan)
    requires
        base + pictures@.len() <= usize::MAX,
    ensures
        ({
            let found = scan_of(
                operation_models(ops@),
                document_objects(*doc),
                match xobjects {
                    Some(d) => Some(entries(*d)),
                    None => None,
                },
                pictures@,
                base as nat,
            );
            &&& operation_models(r.operations@) == found.kept
            &&& draw_views(r.draws@, r.steps@) == found.draws
        }),
        steps_are_ordered(r.steps@),
        forall|k: int| 0 <= k < r.draws@.len() ==> is_step(r.steps@, (#[trigger] r.draws@[k]).step),
        r.frame == frame,
{
    let ghost models = operation_models(ops@);
    let ghost objects = document_objects(*doc);
    let ghost dict = match xobjects {
        Some(d) => Some(entries(*d)),
        None => None,
    };
    let mut kept: Vec<lopdf::content::Operation> = Vec::new();
    let mut steps: Vec<Step> = Vec::new();
    let mut draws: Vec<Draw> = Vec::new();
    let mut saved: Vec<Option<usize>> = Vec::new();
    let mut current: Option<usize> = None;
    assert(models.take(0) == Seq::<(Seq<char>, Seq<ObjectModel>)>::empty());
    assert(operation_models(kept@) == Seq::<(Seq<char>, Seq<ObjectModel>)>::empty());
    assert(draw_views(draws@, steps@) == Seq::<(Seq<Seq<Number>>, nat)>::empty());
    assert(saved_views(saved@, steps@) == Seq::<Seq<Seq<Number>>>::empty());
    for op in it: ops
        invariant
            base + pictures@.len() <= usize::MAX,
            it.seq() == ops@,
            models == operation_models(ops@),
            objects == document_objects(*doc),
            dict == (match xobjects {
                Some(d) => Some(entries(*d)),
                None => None,
            }),
            steps_are_ordered(steps@),
            is_step(steps@, current),
            forall|k: int| 0 <= k < saved@.len() ==> is_step(steps@, #[trigger] saved@[k]),
            forall|k: int| 0 <= k < draws@.len() ==> is_step(steps@, (#[trigger] draws@[k]).step),
            ({
                let found = scan_of(
                    models.take(it.index() as int),
                    objects,
                    dict,
                    pictures@,
                    base as nat,
                );
                &&& operation_models(kept@) == found.kept
                &&& draw_views(draws@, steps@) == found.draws
                &&& chain(steps@, current) == found.matrices
                &&& saved_views(saved@, steps@) == found.saved
            }),
    {
        let ghost n = it.index() as int;
        let ghost before = scan_of(models.take(n), objects, dict, pictures@, base as nat);
        let ghost now = models.take(n + 1);
        let ghost model = operation_model(op);
        let ghost held = kept@;
        let ghost old_draws = draws@;
        let ghost old_saved = saved@;
        let ghost old_steps = steps@;
        assert(now.drop_last() == models.take(n));
        assert(now.last() == model);
        let operator = operator_of(&op);
        let operands = operands_of(&op);
        assert(object_models(operands@).len() == operands@.len());
        let mut keep = true;
        proof {
            lemma_operators_differ();
        }
        if same_text(operator, "q") {
            saved.push(current);
            assert(saved_views(saved@, steps@) == saved_views(old_saved, steps@).push(
                chain(steps@, current),
            ));
        } else if same_text(operator, "Q") {
            if let Some(at) = saved.pop() {
                assert(saved_views(old_saved, steps@).last() == chain(steps@, at));
                assert(saved_views(old_saved, steps@).drop_last() == saved_views(
                    saved@,
                    steps@,
                ));
                assert(is_step(steps@, old_saved[old_saved.len() - 1]));
                current = at;
            }
        } else if same_text(operator, "cm") && operands.len() == 6 {
            let matrix = read_matrix(operands);
            let step = Step { parent: current, matrix };
            proof {
                lemma_chain_stays(old_steps, step, current);
                lemma_draws_stay(draws@, old_steps, step);
                lemma_saved_stay(saved@, old_steps, step);
            }
            let at: usize = steps.len();
            steps.push(step);
            current = Some(at);
            assert(steps@ == old_steps.push(step));
            assert(chain(steps@, current) == before.matrices.push(matrix@));
        } else if same_text(operator, "Do") {
            if let Some(id) = find_drawn(operands, xobjects) {
                proof {
                    pictures@.index_of_last_ensures(id);
                }
                if let Some(k) = last_position(pictures, id) {
                    let image: usize = base + k;
                    draws.push(Draw { step: current, image });
                    assert(draw_views(draws@, steps@) == draw_views(old_draws, steps@).push(
                        (chain(steps@, current), image as nat),
                    ));
                    keep = false;
                } else if is_picture(doc, id) {
                    keep = false;
                }
            }
        } else if same_text(operator, "BI") {
            keep = false;
        }
        if keep {
            kept.push(op);
            assert(operation_models(kept@) == operation_models(held).push(model));
        }
    }
    assert(models.take(models.len() as int) == models);
    PageScan { operations: kept, steps, draws, frame }
}

// ---------------------------------------------------------------------------------------
// What holds of every page
// ---------------------------------------------------------------------------------------

proof fn lemma_operators_differ()
    ensures
        "Do"@ != "q"@,
        "Do"@ != "Q"@,
        "Do"@ != "cm"@,
        "Q"@ != "q"@,
        "cm"@ != "q"@,
        "cm"@ != "Q"@,
        "BI"@ != "q"@,
        "BI"@ != "Q"@,
        "BI"@ != "cm"@,
        "BI"@ != "Do"@,
{
    reveal_strlit("BI");
    reveal_strlit("Do");
    reveal_strlit("q");
    reveal_strlit("Q");
    reveal_strlit("cm");
    assert("Do"@.len() == 2 && "q"@.len() == 1 && "Q"@.len() == 1 && "cm"@.len() == 2);
    assert("BI"@.len() == 2 && "BI"@[0] == 'B');
    assert("Do"@[0] == 'D' && "cm"@[0] == 'c' && "q"@[0] == 'q' && "Q"@[0] == 'Q');
}

/// The operations that stay are all but those that draw a picture, in their order, and every
/// drawing of an extracted picture that was taken out is noted, in the same order.
pub proof fn only_picture_drawings_are_taken_out(
    ops: Seq<(Seq<char>, Seq<ObjectModel>)>,
    objects: Map<(u32, u16), ObjectModel>,
    xobjects: Option<Seq<(Seq<u8>, ObjectModel)>>,
    pictures: Seq<(u32, u16)>,
    base: nat,
)
    ensures
        scan_of(ops, objects, xobjects, pictures, base).kept == ops.filter(
            |op: (Seq<char>, Seq<ObjectModel>)| !draws_picture(op, objects, xobjects, pictures),
        ),
        scan_of(ops, objects, xobjects, pictures, base).draws.map_values(
            |draw: (Seq<Seq<Number>>, nat)| Some(draw.1),
        ) == ops.map_values(
            |op: (Seq<char>, Seq<ObjectModel>)| drawn_picture(op, xobjects, pictures, base),
        ).filter(|idx: Option<nat>| idx is Some),
    decreases ops.len(),
{
    reveal(Seq::filter);
    let found = scan_of(ops, objects, xobjects, pictures, base);
    let noted = |draw: (Seq<Seq<Number>>, nat)| Some(draw.1);
    let drawn = |op: (Seq<char>, Seq<ObjectModel>)| drawn_picture(op, xobjects, pictures, base);
    if ops.len() > 0 {
        let less = ops.drop_last();
        let before = scan_of(less, objects, xobjects, pictures, base);
        only_picture_drawings_are_taken_out(less, objects, xobjects, pictures, base);
        lemma_operators_differ();
        assert(ops.map_values(drawn).drop_last() == less.map_values(drawn));
        assert(ops.map_values(drawn).last() == drawn(ops.last()));
        if let Some(id) = drawn_object(ops.last().1, xobjects) {
            pictures.index_of_last_ensures(id);
        }
        match drawn(ops.last()) {
            Some(idx) => {
                assert(draws_picture(ops.last(), objects, xobjects, pictures));
                assert(found.draws == before.draws.push((before.matrices, idx)));
                assert(found.draws.map_values(noted) == before.draws.map_values(noted).push(
                    Some(idx),
                ));
            },
            None => {
                assert(found.draws == before.draws);
            },
        }
    } else {
        assert(found.draws.map_values(noted) == Seq::<Option<nat>>::empty());
        assert(ops.map_values(drawn) == Seq::<Option<nat>>::empty());
    }
}

/// Every drawing that is noted is one of an extracted picture.
pub proof fn only_extracted_pictures_are_noted(
    ops: Seq<(Seq<char>, Seq<ObjectModel>)>,
    objects: Map<(u32, u16), ObjectModel>,
    xobjects: Option<Seq<(Seq<u8>, ObjectModel)>>,
    pictures: Seq<(u32, u16)>,
    base: nat,
    k: int,
)
    requires
        0 <= k < scan_of(ops, objects, xobjects, pictures, base).draws.len(),
    ensures
        base <= scan_of(ops, objects, xobjects, pictures, base).draws[k].1 < base + pictures.len(),
    decreases ops.len(),
{
    if ops.len() > 0 {
        let less = scan_of(ops.drop_last(), objects, xobjects, pictures, base);
        if k < less.draws.len() {
            only_extracted_pictures_are_noted(
                ops.drop_last(),
                objects,
                xobjects,
                pictures,
                base,
                k,
            );
        } else if let Some(id) = drawn_object(ops.last().1, xobjects) {
            pictures.index_of_last_ensures(id);
        }
    }
}

/// A component of a transformation is the number that the operand at its place is, and zero
/// where the operand is no number.
pub open spec fn reads_as(operand: ObjectModel, number: Number) -> bool {
    match operand {
        ObjectModel::Integer(value) => number == Number::Integer(value),
        ObjectModel::Real(bits) => number == Number::Real(bits),
        _ => number == Number::Zero,
    }
}

/// After an operation `cm` with six operands the transformations in effect are those before it
/// and one more, and each of its six components is the number of the operand at the same place.
/// The operation stays in the content and changes nothing else.
pub proof fn a_transformation_is_the_one_that_was_written(
    ops: Seq<(Seq<char>, Seq<ObjectModel>)>,
    operands: Seq<ObjectModel>,
    objects: Map<(u32, u16), ObjectModel>,
    xobjects: Option<Seq<(Seq<u8>, ObjectModel)>>,
    pictures: Seq<(u32, u16)>,
    base: nat,
)
    requires
        operands.len() == 6,
    ensures
        ({
            let before = scan_of(ops, objects, xobjects, pictures, base);
            let after = scan_of(ops.push(("cm"@, operands)), objects, xobjects, pictures, base);
            &&& after.matrices.len() == before.matrices.len() + 1
            &&& after.matrices.drop_last() == before.matrices
            &&& after.matrices.last().len() == 6
            &&& forall|i: int| #![trigger operands[i]]
                0 <= i < 6 ==> match operands[i] {
                    ObjectModel::Integer(value) => after.matrices.last()[i] == Number::Integer(
                        value,
                    ),
                    ObjectModel::Real(bits) => after.matrices.last()[i] == Number::Real(bits),
                    _ => after.matrices.last()[i] == Number::Zero,
                }
            &&& after.kept == before.kept.push(("cm"@, operands))
            &&& after.draws == before.draws
            &&& after.saved == before.saved
        }),
{
    lemma_operators_differ();
    let op = ("cm"@, operands);
    let before = scan_of(ops, objects, xobjects, pictures, base);
    let after = scan_of(ops.push(op), objects, xobjects, pictures, base);
    assert(ops.push(op).drop_last() == ops);
    assert(after.matrices.drop_last() == before.matrices);
}

/// An operation `cm` with any other number of operands transforms nothing.
pub proof fn a_damaged_transformation_is_passed_over(
    ops: Seq<(Seq<char>, Seq<ObjectModel>)>,
    operands: Seq<ObjectModel>,
    objects: Map<(u32, u16), ObjectModel>,
    xobjects: Option<Seq<(Seq<u8>, ObjectModel)>>,
    pictures: Seq<(u32, u16)>,
    base: nat,
)
    requires
        operands.len() != 6,
    ensures
        ({
            let before = scan_of(ops, objects, xobjects, pictures, base);
            let after = scan_of(ops.push(("cm"@, operands)), objects, xobjects, pictures, base);
            &&& after.kept == before.kept.push(("cm"@, operands))
            &&& after.matrices == before.matrices
            &&& after.draws == before.draws
            &&& after.saved == before.saved
        }),
{
    lemma_operators_differ();
    assert(ops.push(("cm"@, operands)).drop_last() == ops);
}

/// The entry at an index of a dictionary is the one that its key leads to.
pub open spec fn leads_to(
    dict: Seq<(Seq<u8>, ObjectModel)>,
    at: int,
    name: Seq<u8>,
    id: (u32, u16),
) -> bool {
    &&& 0 <= at < dict.len()
    &&& dict[at] == (name, ObjectModel::Reference(id))
    &&& forall|j: int| at < j < dict.len() ==> (#[trigger] dict[j]).0 != name
}

proof fn lemma_leads_to(
    dict: Seq<(Seq<u8>, ObjectModel)>,
    at: int,
    name: Seq<u8>,
    id: (u32, u16),
)
    requires
        leads_to(dict, at, name, id),
    ensures
        lookup(dict, name) == Some(ObjectModel::Reference(id)),
    decreases dict.len(),
{
    if at < dict.len() - 1 {
        let less = dict.drop_last();
        assert(dict[dict.len() - 1].0 != name);
        assert forall|j: int| at < j < less.len() implies (#[trigger] less[j]).0 != name by {
            assert(less[j] == dict[j]);
        }
        lemma_leads_to(less, at, name, id);
    }
}

/// A drawing of an extracted picture is taken out of the content and noted with the
/// transformations in effect there, none left out and none added, and with the index of the
/// picture whose object its name leads to.
pub proof fn a_drawing_is_noted_where_it_stood(
    ops: Seq<(Seq<char>, Seq<ObjectModel>)>,
    operands: Seq<ObjectModel>,
    name: Seq<u8>,
    id: (u32, u16),
    at: int,
    k: int,
    objects: Map<(u32, u16), ObjectModel>,
    dict: Seq<(Seq<u8>, ObjectModel)>,
    pictures: Seq<(u32, u16)>,
    base: nat,
)
    requires
        operands.len() > 0,
        operands[0] == ObjectModel::Name(name),
        leads_to(dict, at, name, id),
        0 <= k < pictures.len(),
        pictures[k] == id,
        forall|j: int| k < j < pictures.len() ==> #[trigger] pictures[j] != id,
    ensures
        ({
            let before = scan_of(ops, objects, Some(dict), pictures, base);
            let after = scan_of(ops.push(("Do"@, operands)), objects, Some(dict), pictures, base);
            &&& after.draws == before.draws.push((before.matrices, (base + k) as nat))
            &&& after.kept == before.kept
            &&& after.matrices == before.matrices
            &&& after.saved == before.saved
        }),
{
    lemma_operators_differ();
    lemma_leads_to(dict, at, name, id);
    pictures.index_of_last_ensures(id);
    assert(pictures.contains(id));
    assert(ops.push(("Do"@, operands)).drop_last() == ops);
}

/// A picture that is drawn right behind a transformation is noted with that transformation as
/// the innermost: the six numbers that the page wrote, in their order.
pub proof fn a_drawing_is_noted_with_its_transformation(
    ops: Seq<(Seq<char>, Seq<ObjectModel>)>,
    numbers: Seq<ObjectModel>,
    operands: Seq<ObjectModel>,
    name: Seq<u8>,
    id: (u32, u16),
    at: int,
    k: int,
    objects: Map<(u32, u16), ObjectModel>,
    dict: Seq<(Seq<u8>, ObjectModel)>,
    pictures: Seq<(u32, u16)>,
    base: nat,
)
    requires
        numbers.len() == 6,
        operands.len() > 0,
        operands[0] == ObjectModel::Name(name),
        leads_to(dict, at, name, id),
        0 <= k < pictures.len(),
        pictures[k] == id,
        forall|j: int| k < j < pictures.len() ==> #[trigger] pictures[j] != id,
    ensures
        ({
            let before = scan_of(ops, objects, Some(dict), pictures, base);
            let after = scan_of(
                ops.push(("cm"@, numbers)).push(("Do"@, operands)),
                objects,
                Some(dict),
                pictures,
                base,
            );
            let noted = after.draws.last();
            &&& after.draws.len() == before.draws.len() + 1
            &&& after.draws.drop_last() == before.draws
            &&& noted.1 == base + k
            &&& noted.0.drop_last() == before.matrices
            &&& noted.0.last().len() == 6
            &&& reads_as(numbers[0], noted.0.last()[0])
            &&& reads_as(numbers[1], noted.0.last()[1])
            &&& reads_as(numbers[2], noted.0.last()[2])
            &&& reads_as(numbers[3], noted.0.last()[3])
            &&& reads_as(numbers[4], noted.0.last()[4])
            &&& reads_as(numbers[5], noted.0.last()[5])
        }),
{
    let moved = ops.push(("cm"@, numbers));
    a_transformation_is_the_one_that_was_written(
        ops,
        numbers,
        objects,
        Some(dict),
        pictures,
        base,
    );
    a_drawing_is_noted_where_it_stood(
        moved,
        operands,
        name,
        id,
        at,
        k,
        objects,
        dict,
        pictures,
        base,
    );
    let before = scan_of(ops, objects, Some(dict), pictures, base);
    let after = scan_of(moved.push(("Do"@, operands)), objects, Some(dict), pictures, base);
    assert(after.draws.drop_last() == before.draws);
}

/// The drawing of an external object stays in the content where the object is no picture: it
/// was not extracted, and it is not a stream whose subtype is `Image`.
pub proof fn other_drawings_stay(
    ops: Seq<(Seq<char>, Seq<ObjectModel>)>,
    operands: Seq<ObjectModel>,
    name: Seq<u8>,
    id: (u32, u16),
    at: int,
    objects: Map<(u32, u16), ObjectModel>,
    dict: Seq<(Seq<u8>, ObjectModel)>,
    pictures: Seq<(u32, u16)>,
    base: nat,
)
    requires
        operands.len() > 0,
        operands[0] == ObjectModel::Name(name),
        leads_to(dict, at, name, id),
        !pictures.contains(id),
        match object_at(objects, id) {
            Ok(ObjectModel::Stream(entries, _)) => lookup(
                entries,
                vstd::utf8::encode_utf8("Subtype"@),
            ) != Some(ObjectModel::Name(vstd::utf8::encode_utf8("Image"@))),
            _ => true,
        },
    ensures
        ({
            let before = scan_of(ops, objects, Some(dict), pictures, base);
            let after = scan_of(ops.push(("Do"@, operands)), objects, Some(dict), pictures, base);
            &&& after.kept == before.kept.push(("Do"@, operands))
            &&& after.draws == before.draws
            &&& after.matrices == before.matrices
            &&& after.saved == before.saved
        }),
{
    lemma_operators_differ();
    lemma_leads_to(dict, at, name, id);
    pictures.index_of_last_ensures(id);
    assert(ops.push(("Do"@, operands)).drop_last() == ops);
}

/// A drawing that leads to no object stays in the content: one without an operand, or whose first
/// operand is no name, or is a name that no external object has.
pub proof fn drawings_of_nothing_stay(
    ops: Seq<(Seq<char>, Seq<ObjectModel>)>,
    operands: Seq<ObjectModel>,
    objects: Map<(u32, u16), ObjectModel>,
    xobjects: Option<Seq<(Seq<u8>, ObjectModel)>>,
    pictures: Seq<(u32, u16)>,
    base: nat,
)
    requires
        ({
            ||| operands.len() == 0
            ||| !(operands[0] is Name)
            ||| xobjects is None
            ||| forall|j: int|
                0 <= j < xobjects->0.len() ==> (#[trigger] xobjects->0[j]).0 != operands[0]->Name_0
        }),
    ensures
        ({
            let before = scan_of(ops, objects, xobjects, pictures, base);
            let after = scan_of(ops.push(("Do"@, operands)), objects, xobjects, pictures, base);
            &&& after.kept == before.kept.push(("Do"@, operands))
            &&& after.draws == before.draws
            &&& after.matrices == before.matrices
            &&& after.saved == before.saved
        }),
{
    lemma_operators_differ();
    assert(ops.push(("Do"@, operands)).drop_last() == ops);
    if operands.len() > 0 && operands[0] is Name && xobjects is Some {
        lemma_leads_nowhere(xobjects->0, operands[0]->Name_0);
    }
}

proof fn lemma_leads_nowhere(dict: Seq<(Seq<u8>, ObjectModel)>, name: Seq<u8>)
    requires
        forall|j: int| 0 <= j < dict.len() ==> (#[trigger] dict[j]).0 != name,
    ensures
        lookup(dict, name) is None,
    decreases dict.len(),
{
    if dict.len() > 0 {
        let less = dict.drop_last();
        assert(dict[dict.len() - 1].0 != name);
        assert forall|j: int| 0 <= j < less.len() implies (#[trigger] less[j]).0 != name by {
            assert(less[j] == dict[j]);
        }
        lemma_leads_nowhere(less, name);
    }
}

/// The drawing of a picture that could not be extracted is taken out and not noted.
pub proof fn drawings_of_lost_pictures_are_taken_out(
    ops: Seq<(Seq<char>, Seq<ObjectModel>)>,
    operands: Seq<ObjectModel>,
    name: Seq<u8>,
    id: (u32, u16),
    at: int,
    objects: Map<(u32, u16), ObjectModel>,
    dict: Seq<(Seq<u8>, ObjectModel)>,
    pictures: Seq<(u32, u16)>,
    base: nat,
)
    requires
        operands.len() > 0,
        operands[0] == ObjectModel::Name(name),
        leads_to(dict, at, name, id),
        !pictures.contains(id),
        object_at(objects, id) matches Ok(ObjectModel::Stream(entries, _)) && lookup(
            entries,
            vstd::utf8::encode_utf8("Subtype"@),
        ) == Some(ObjectModel::Name(vstd::utf8::encode_utf8("Image"@))),
    ensures
        scan_of(ops.push(("Do"@, operands)), objects, Some(dict), pictures, base) == scan_of(
            ops,
            objects,
            Some(dict),
            pictures,
            base,
        ),
{
    lemma_operators_differ();
    lemma_leads_to(dict, at, name, id);
    pictures.index_of_last_ensures(id);
    assert(ops.push(("Do"@, operands)).drop_last() == ops);
}

/// A picture that stands in the content itself is taken out, and every operation that neither
/// saves, restores, transforms nor draws stays and changes nothing.
pub proof fn operations_that_draw_nothing_stay(
    ops: Seq<(Seq<char>, Seq<ObjectModel>)>,
    op: (Seq<char>, Seq<ObjectModel>),
    objects: Map<(u32, u16), ObjectModel>,
    xobjects: Option<Seq<(Seq<u8>, ObjectModel)>>,
    pictures: Seq<(u32, u16)>,
    base: nat,
)
    requires
        op.0 != "q"@ && op.0 != "Q"@ && op.0 != "cm"@ && op.0 != "Do"@,
    ensures
        ({
            let before = scan_of(ops, objects, xobjects, pictures, base);
            let after = scan_of(ops.push(op), objects, xobjects, pictures, base);
            &&& after.kept == (if op.0 == "BI"@ {
                before.kept
            } else {
                before.kept.push(op)
            })
            &&& after.draws == before.draws
            &&& after.matrices == before.matrices
            &&& after.saved == before.saved
        }),
{
    assert(ops.push(op).drop_last() == ops);
}

/// Saving and restoring change neither the content nor the drawings. What is saved is what is in
/// effect. With nothing saved, restoring changes nothing.
pub proof fn saving_and_restoring_draw_nothing(
    ops: Seq<(Seq<char>, Seq<ObjectModel>)>,
    op: (Seq<char>, Seq<ObjectModel>),
    objects: Map<(u32, u16), ObjectModel>,
    xobjects: Option<Seq<(Seq<u8>, ObjectModel)>>,
    pictures: Seq<(u32, u16)>,
    base: nat,
)
    requires
        op.0 == "q"@ || op.0 == "Q"@,
    ensures
        ({
            let before = scan_of(ops, objects, xobjects, pictures, base);
            let after = scan_of(ops.push(op), objects, xobjects, pictures, base);
            &&& after.kept == before.kept.push(op)
            &&& after.draws == before.draws
            &&& op.0 == "q"@ ==> after.matrices == before.matrices && after.saved
                == before.saved.push(before.matrices)
            &&& op.0 == "Q"@ && before.saved.len() == 0 ==> after.matrices == before.matrices
                && after.saved == before.saved
            &&& op.0 == "Q"@ && before.saved.len() > 0 ==> after.saved.push(after.matrices)
                == before.saved
        }),
{
    lemma_operators_differ();
    let before = scan_of(ops, objects, xobjects, pictures, base);
    assert(ops.push(op).drop_last() == ops);
    if before.saved.len() > 0 {
        assert(before.saved.drop_last().push(before.saved.last()) == before.saved);
    }
}

/// How many states more some operations save than they restore.
pub open spec fn depth(ops: Seq<(Seq<char>, Seq<ObjectModel>)>) -> int
    decreases ops.len(),
{
    if ops.len() == 0 {
        0
    } else if ops.last().0 == "q"@ {
        depth(ops.drop_last()) + 1
    } else if ops.last().0 == "Q"@ {
        depth(ops.drop_last()) - 1
    } else {
        depth(ops.drop_last())
    }
}

/// The operations restore no state that they did not save.
pub open spec fn restores_its_own(ops: Seq<(Seq<char>, Seq<ObjectModel>)>) -> bool {
    forall|k: int| 0 <= k <= ops.len() ==> depth(#[trigger] ops.take(k)) >= 0
}

/// What was saved before some operations stays saved under what they save themselves.
proof fn lemma_saved_survives(
    ops: Seq<(Seq<char>, Seq<ObjectModel>)>,
    inner: Seq<(Seq<char>, Seq<ObjectModel>)>,
    objects: Map<(u32, u16), ObjectModel>,
    xobjects: Option<Seq<(Seq<u8>, ObjectModel)>>,
    pictures: Seq<(u32, u16)>,
    base: nat,
)
    requires
        restores_its_own(inner),
    ensures
        ({
            let before = scan_of(ops, objects, xobjects, pictures, base).saved;
            let after = scan_of(ops + inner, objects, xobjects, pictures, base).saved;
            after.len() == before.len() + depth(inner) && after.take(before.len() as int) == before
        }),
    decreases inner.len(),
{
    let before = scan_of(ops, objects, xobjects, pictures, base).saved;
    if inner.len() == 0 {
        assert(ops + inner == ops);
        assert(before.take(before.len() as int) == before);
    } else {
        let less = inner.drop_last();
        let all = ops + inner;
        assert(all.drop_last() == ops + less);
        assert(all.last() == inner.last());
        assert forall|k: int| 0 <= k <= less.len() implies depth(#[trigger] less.take(k)) >= 0 by {
            assert(less.take(k) == inner.take(k));
        }
        assert(inner.take(inner.len() as int) == inner);
        lemma_saved_survives(ops, less, objects, xobjects, pictures, base);
        lemma_operators_differ();
        let middle = scan_of(ops + less, objects, xobjects, pictures, base).saved;
        let after = scan_of(all, objects, xobjects, pictures, base).saved;
        assert(less.take(less.len() as int) == less);
        assert(depth(less) >= 0);
        assert(after.take(before.len() as int) == middle.take(before.len() as int));
    }
}

/// A transformation ends where the state that was saved before it is restored, whatever is
/// saved and restored in between.
pub proof fn restoring_ends_a_transformation(
    ops: Seq<(Seq<char>, Seq<ObjectModel>)>,
    inner: Seq<(Seq<char>, Seq<ObjectModel>)>,
    save: (Seq<char>, Seq<ObjectModel>),
    restore: (Seq<char>, Seq<ObjectModel>),
    objects: Map<(u32, u16), ObjectModel>,
    xobjects: Option<Seq<(Seq<u8>, ObjectModel)>>,
    pictures: Seq<(u32, u16)>,
    base: nat,
)
    requires
        save.0 == "q"@,
        restore.0 == "Q"@,
        restores_its_own(inner),
        depth(inner) == 0,
    ensures
        ({
            let after = scan_of(
                (ops.push(save) + inner).push(restore),
                objects,
                xobjects,
                pictures,
                base,
            );
            let before = scan_of(ops, objects, xobjects, pictures, base);
            after.matrices == before.matrices && after.saved == before.saved
        }),
{
    let all = (ops.push(save) + inner).push(restore);
    lemma_operators_differ();
    assert(ops.push(save).drop_last() == ops);
    assert(all.drop_last() == ops.push(save) + inner);
    lemma_saved_survives(ops.push(save), inner, objects, xobjects, pictures, base);
    let before = scan_of(ops, objects, xobjects, pictures, base);
    let held = scan_of(ops.push(save), objects, xobjects, pictures, base).saved;
    let middle = scan_of(ops.push(save) + inner, objects, xobjects, pictures, base).saved;
    assert(held == before.saved.push(before.matrices));
    assert(middle == held);
    assert(held.drop_last() == before.saved);
}

// ---------------------------------------------------------------------------------------
// Reading and replacing the content
// ---------------------------------------------------------------------------------------

/// A byte that separates operations.
pub open spec fn is_gap(byte: u8) -> bool {
    byte == 0x20 || byte == 0x09 || byte == 0x0d || byte == 0x0a
}

/// From a byte on, the first thing behind the gap is a name, or the operator `ID`.
pub open spec fn entries_follow(bytes: Seq<u8>, at: int) -> bool
    decreases bytes.len() - at,
{
    if at < 0 || at >= bytes.len() {
        false
    } else if is_gap(bytes[at]) {
        entries_follow(bytes, at + 1)
    } else {
        bytes[at] == 0x2f || (bytes[at] == 0x49 && at + 1 < bytes.len() && bytes[at + 1] == 0x44)
    }
}

/// The operator `BI` stands here, where an operation can begin, and the entries of an inline
/// picture follow.
pub open spec fn begins_inline_picture(bytes: Seq<u8>, at: int) -> bool {
    &&& 0 <= at < bytes.len() - 1
    &&& bytes[at] == 0x42
    &&& bytes[at + 1] == 0x49
    &&& at == 0 || is_gap(bytes[at - 1])
    &&& entries_follow(bytes, at + 2)
}

/// From a byte on, an inline picture begins somewhere outside strings and comments. The byte
/// stands inside `depth` brackets of a string, or in a comment.
pub open spec fn inline_picture_from(bytes: Seq<u8>, at: int, depth: nat, comment: bool) -> bool
    decreases bytes.len() - at,
{
    if at < 0 || at >= bytes.len() {
        false
    } else if comment {
        inline_picture_from(bytes, at + 1, 0, bytes[at] != 0x0d && bytes[at] != 0x0a)
    } else if depth > 0 {
        if bytes[at] == 0x5c {
            at + 1 < bytes.len() && inline_picture_from(bytes, at + 2, depth, false)
        } else if bytes[at] == 0x28 {
            inline_picture_from(bytes, at + 1, depth + 1, false)
        } else if bytes[at] == 0x29 {
            inline_picture_from(bytes, at + 1, (depth - 1) as nat, false)
        } else {
            inline_picture_from(bytes, at + 1, depth, false)
        }
    } else if begins_inline_picture(bytes, at) {
        true
    } else if bytes[at] == 0x28 {
        inline_picture_from(bytes, at + 1, 1, false)
    } else {
        inline_picture_from(bytes, at + 1, 0, bytes[at] == 0x25)
    }
}

/// The bytes hold the operator that begins an inline picture, or something that looks like it.
pub open spec fn may_hold_inline_picture(bytes: Seq<u8>) -> bool {
    inline_picture_from(bytes, 0, 0, false)
}

proof fn lemma_no_inline_picture(bytes: Seq<u8>, at: int, depth: nat, comment: bool)
    requires
        forall|i: int|
            0 <= i < bytes.len() - 1 ==> !(#[trigger] bytes[i] == 0x42 && bytes[i + 1] == 0x49),
    ensures
        !inline_picture_from(bytes, at, depth, comment),
    decreases bytes.len() - at,
{
    if 0 <= at < bytes.len() {
        assert(!begins_inline_picture(bytes, at));
        if comment {
            lemma_no_inline_picture(bytes, at + 1, 0, bytes[at] != 0x0d && bytes[at] != 0x0a);
        } else if depth > 0 {
            if at + 2 <= bytes.len() {
                lemma_no_inline_picture(bytes, at + 2, depth, false);
            }
            lemma_no_inline_picture(bytes, at + 1, depth + 1, false);
            lemma_no_inline_picture(bytes, at + 1, (depth - 1) as nat, false);
            lemma_no_inline_picture(bytes, at + 1, depth, false);
        } else {
            lemma_no_inline_picture(bytes, at + 1, 1, false);
            lemma_no_inline_picture(bytes, at + 1, 0, bytes[at] == 0x25);
        }
    }
}

proof fn lemma_inline_picture_is_found(bytes: Seq<u8>, at: int, place: int)
    requires
        0 <= at <= place < bytes.len() - 2,
        forall|i: int|
            0 <= i < place ==> #[trigger] bytes[i] != 0x28 && bytes[i] != 0x25,
        bytes[place] == 0x42,
        bytes[place + 1] == 0x49,
        place == 0 || bytes[place - 1] == 0x20 || bytes[place - 1] == 0x0a,
        entries_follow(bytes, place + 2),
    ensures
        inline_picture_from(bytes, at, 0, false),
    decreases place - at,
{
    if at == place {
        assert(begins_inline_picture(bytes, at));
    } else {
        assert(bytes[at] != 0x28 && bytes[at] != 0x25);
        lemma_inline_picture_is_found(bytes, at + 1, place);
    }
}

/// Content without the letters of the operator `BI` holds no inline picture, and content with that
/// operator at its start, or behind a space or a line break, and an entry behind it does, where no
/// string and no comment begins before.
pub proof fn inline_pictures_are_noticed(bytes: Seq<u8>, place: int)
    ensures
        (forall|i: int|
            0 <= i < bytes.len() - 1 ==> !(#[trigger] bytes[i] == 0x42 && bytes[i + 1] == 0x49))
            ==> !may_hold_inline_picture(bytes),
        ({
            &&& 0 <= place < bytes.len() - 3
            &&& forall|i: int|
                0 <= i < place ==> #[trigger] bytes[i] != 0x28 && bytes[i] != 0x25
            &&& bytes[place] == 0x42
            &&& bytes[place + 1] == 0x49
            &&& bytes[place + 2] == 0x20 || bytes[place + 2] == 0x0a
            &&& bytes[place + 3] == 0x2f
            &&& place == 0 || bytes[place - 1] == 0x20 || bytes[place - 1] == 0x0a
        }) ==> may_hold_inline_picture(bytes),
{
    if forall|i: int|
        0 <= i < bytes.len() - 1 ==> !(#[trigger] bytes[i] == 0x42 && bytes[i + 1] == 0x49) {
        lemma_no_inline_picture(bytes, 0, 0, false);
    }
    if 0 <= place < bytes.len() - 3 && (forall|i: int|
        0 <= i < place ==> #[trigger] bytes[i] != 0x28 && bytes[i] != 0x25) && bytes[place] == 0x42
        && bytes[place + 1] == 0x49 && (bytes[place + 2] == 0x20 || bytes[place + 2] == 0x0a)
        && bytes[place + 3] == 0x2f && (place == 0 || bytes[place - 1] == 0x20 || bytes[place - 1]
        == 0x0a) {
        assert(entries_follow(bytes, place + 3));
        assert(entries_follow(bytes, place + 2));
        lemma_inline_picture_is_found(bytes, 0, place);
    }
}

/// The operations that bytes spell, or why they spell none.
pub uninterp spec fn operations_of(bytes: Seq<u8>) -> Result<
    Seq<(Seq<char>, Seq<ObjectModel>)>,
    Seq<char>,
>;

/// `lopdf::content::Content::decode` reads operations. The result depends on the bytes alone.
/// An inline picture without a colour space stops the program there, so bytes that may hold an
/// inline picture are left out. An operation begins at the start, or behind a gap or a comment,
/// and reading ends for good at the first thing that is none.
#[verifier::external_body]
fn decode_operations(bytes: &[u8]) -> (r: Result<Vec<lopdf::content::Operation>, String>)
    requires
        !may_hold_inline_picture(bytes@),
    ensures
        match operations_of(bytes@) {
            Ok(models) => r matches Ok(ops) && operation_models(ops@) == models,
            Err(text) => r matches Err(e) && e@ == text,
        },
{
    lopdf::content::Content::decode(bytes).map(|c| c.operations).map_err(|e| e.to_string())
}

fn find_entries(bytes: &Vec<u8>, at: usize) -> (r: bool)
    ensures
        r == entries_follow(bytes@, at as int),
{
    let mut i: usize = at;
    while i < bytes.len()
        invariant
            entries_follow(bytes@, at as int) == entries_follow(bytes@, i as int),
        decreases bytes@.len() - i,
    {
        let byte: u8 = bytes[i];
        if byte != 0x20 && byte != 0x09 && byte != 0x0d && byte != 0x0a {
            return byte == 0x2f || (byte == 0x49 && i + 1 < bytes.len() && bytes[i + 1] == 0x44);
        }
        i = i + 1;
    }
    false
}

fn find_inline_start(bytes: &Vec<u8>, at: usize) -> (r: bool)
    requires
        at < bytes@.len(),
    ensures
        r == begins_inline_picture(bytes@, at as int),
{
    if bytes.len() - at < 3 || bytes[at] != 0x42 || bytes[at + 1] != 0x49 {
        return false;
    }
    if at > 0 {
        let before: u8 = bytes[at - 1];
        if before != 0x20 && before != 0x09 && before != 0x0d && before != 0x0a {
            return false;
        }
    }
    find_entries(bytes, at + 2)
}

fn find_inline_picture(bytes: &Vec<u8>) -> (r: bool)
    ensures
        r == may_hold_inline_picture(bytes@),
{
    let mut i: usize = 0;
    let mut depth: usize = 0;
    let mut comment = false;
    while i < bytes.len()
        invariant
            depth <= i,
            may_hold_inline_picture(bytes@) == inline_picture_from(
                bytes@,
                i as int,
                depth as nat,
                comment,
            ),
            comment ==> depth == 0,
        decreases bytes@.len() - i,
    {
        let byte: u8 = bytes[i];
        if comment {
            comment = byte != 0x0d && byte != 0x0a;
        } else if depth > 0 {
            if byte == 0x5c {
                if i + 1 >= bytes.len() {
                    return false;
                }
                i = i + 1;
            } else if byte == 0x28 {
                depth = depth + 1;
            } else if byte == 0x29 {
                depth = depth - 1;
            }
        } else if find_inline_start(bytes, i) {
            return true;
        } else if byte == 0x28 {
            depth = 1;
        } else {
            comment = byte == 0x25;
        }
        i = i + 1;
    }
    false
}

/// What a scan of a page comes to, given its operations: those that stay, the drawings and the
/// media box. Damaged operations, resources or boxes are reported, in this order.
pub open spec fn page_scan_of(
    ops: Result<Seq<(Seq<char>, Seq<ObjectModel>)>, Seq<char>>,
    objects: Map<(u32, u16), ObjectModel>,
    page_id: (u32, u16),
    pictures: Seq<(u32, u16)>,
    base: nat,
) -> Result<(Scan, Seq<Number>), Seq<char>> {
    match ops {
        Err(e) => Err(e),
        Ok(models) => match page_resources(objects, page_id) {
            Err(e) => Err(e),
            Ok(resources) => {
                let xobjects = match resources {
                    Some(dict) => match dictionary_under(
                        objects,
                        dict,
                        vstd::utf8::encode_utf8("XObject"@),
                    ) {
                        Ok(found) => Some(found),
                        Err(_) => None,
                    },
                    None => None,
                };
                match page_box(objects, page_id) {
                    Err(e) => Err(e),
                    Ok(frame) => Ok((scan_of(models, objects, xobjects, pictures, base), frame)),
                }
            },
        },
    }
}

/// A page is scanned with the external objects that its resources list and has its media box. Of
/// a page whose operations cannot be read the reader's complaint is passed on.
pub proof fn a_page_is_scanned_with_its_resources(
    ops: Seq<(Seq<char>, Seq<ObjectModel>)>,
    complaint: Seq<char>,
    objects: Map<(u32, u16), ObjectModel>,
    page_id: (u32, u16),
    resources: Seq<(Seq<u8>, ObjectModel)>,
    xobjects: Seq<(Seq<u8>, ObjectModel)>,
    frame: Seq<Number>,
    pictures: Seq<(u32, u16)>,
    base: nat,
)
    requires
        page_resources(objects, page_id) == Ok::<Option<Seq<(Seq<u8>, ObjectModel)>>, Seq<char>>(
            Some(resources),
        ),
        lookup(resources, vstd::utf8::encode_utf8("XObject"@)) == Some(
            ObjectModel::Dictionary(xobjects),
        ),
        page_box(objects, page_id) == Ok::<Seq<Number>, Seq<char>>(frame),
    ensures
        page_scan_of(Ok(ops), objects, page_id, pictures, base) == Ok::<
            (Scan, Seq<Number>),
            Seq<char>,
        >((scan_of(ops, objects, Some(xobjects), pictures, base), frame)),
        page_scan_of(Err(complaint), objects, page_id, pictures, base) == Err::<
            (Scan, Seq<Number>),
            Seq<char>,
        >(complaint),
{
    assert(followed(
        objects,
        ObjectModel::Dictionary(xobjects),
        REFERENCE_LIMIT as nat,
    ) == Ok::<ObjectModel, Seq<char>>(ObjectModel::Dictionary(xobjects)));
}

/// The call gave back this scan, or this complaint.
pub open spec fn is_page_scan(
    r: Result<PageScan, String>,
    m: Result<(Scan, Seq<Number>), Seq<char>>,
) -> bool {
    match (r, m) {
        (Ok(page), Ok((scan, frame))) => {
            &&& operation_models(page.operations@) == scan.kept
            &&& draw_views(page.draws@, page.steps@) == scan.draws
            &&& page.frame@ == frame
            &&& page.wf()
        },
        (Err(e), Err(text)) => e@ == text,
        _ => false,
    }
}

impl PageScan {
    /// Every step stands behind the one before it, and every drawing has a step that is there.
    pub open spec fn wf(self) -> bool {
        &&& steps_are_ordered(self.steps@)
        &&& forall|k: int|
            0 <= k < self.draws@.len() ==> is_step(
                self.steps@,
                (#[trigger] self.draws@[k]).step,
            )
    }
}

/// The operations as the reader of them gave them back.
pub open spec fn decoded_view(
    r: Result<Vec<lopdf::content::Operation>, String>,
) -> Result<Seq<(Seq<char>, Seq<ObjectModel>)>, Seq<char>> {
    match r {
        Ok(ops) => Ok(operation_models(ops@)),
        Err(e) => Err(e@),
    }
}

/// Takes the pictures out of a page whose operations were read already: see `page_scan_of`.
pub fn scan_operations(
    decoded: Result<Vec<lopdf::content::Operation>, String>,
    doc: &lopdf::Document,
    page_id: (u32, u16),
    pictures: &Vec<(u32, u16)>,
    base: usize,
) -> (r: Result<PageScan, String>)
    requires
        base + pictures@.len() <= usize::MAX,
    ensures
        is_page_scan(
            r,
            page_scan_of(
                decoded_view(decoded),
                document_objects(*doc),
                page_id,
                pictures@,
                base as nat,
            ),
        ),
{
    let ops = decoded?;
    let resources = get_resources(doc, page_id)?;
    let xobjects = match resources {
        Some(dict) => match get_dictionary_under(doc, dict, "XObject".as_bytes()) {
            Ok(found) => Some(found),
            Err(_) => None,
        },
        None => None,
    };
    let frame = get_media_box(doc, page_id)?;
    Ok(locate_images(ops, doc, xobjects, pictures, base, frame))
}

/// The reader of operations may be called on any bytes.
pub open spec fn reads_anything<F: Fn(&[u8]) -> Result<Vec<lopdf::content::Operation>, String>>(
    read: F,
) -> bool {
    forall|bytes: &[u8]| call_requires(read, (bytes,))
}

/// The reader of operations gave this back for these bytes.
pub open spec fn may_read<F: Fn(&[u8]) -> Result<Vec<lopdf::content::Operation>, String>>(
    read: F,
    bytes: Seq<u8>,
    r: Result<Vec<lopdf::content::Operation>, String>,
) -> bool {
    exists|slice: &[u8]| slice@ == bytes && #[trigger] call_ensures(read, (slice,), r)
}

/// What a walk over the content of a page may come to. Bytes that may hold an inline picture
/// are read by `read_unsure`, and then any reading that it gives back counts.
pub open spec fn is_sanitized<F: Fn(&[u8]) -> Result<Vec<lopdf::content::Operation>, String>>(
    read_unsure: F,
    objects: Map<(u32, u16), ObjectModel>,
    page_id: (u32, u16),
    pictures: Seq<(u32, u16)>,
    base: nat,
    r: Result<PageScan, String>,
) -> bool {
    let bytes = page_content_of(objects, page_id);
    if !may_hold_inline_picture(bytes) {
        is_page_scan(r, page_scan_of(operations_of(bytes), objects, page_id, pictures, base))
    } else {
        exists|decoded: Result<Vec<lopdf::content::Operation>, String>|
            may_read(read_unsure, bytes, decoded) && #[trigger] is_page_scan(
                r,
                page_scan_of(decoded_view(decoded), objects, page_id, pictures, base),
            )
    }
}

/// Walks the content of a page once and takes out every drawing of a picture, noting where it
/// stood. Bytes that may hold an inline picture are read by `read_unsure`, which is to survive
/// a damaged one.
pub fn sanitize_and_locate_images<
    F: Fn(&[u8]) -> Result<Vec<lopdf::content::Operation>, String>,
>(
    doc: &lopdf::Document,
    page_id: (u32, u16),
    pictures: &Vec<(u32, u16)>,
    base: usize,
    read_unsure: &F,
) -> (r: Result<PageScan, String>)
    requires
        base + pictures@.len() <= usize::MAX,
        reads_anything(*read_unsure),
    ensures
        is_sanitized(
            *read_unsure,
            document_objects(*doc),
            page_id,
            pictures@,
            base as nat,
            r,
        ),
{
    let bytes = read_page_content(doc, page_id);
    if find_inline_picture(&bytes) {
        let decoded = read_unsure(bytes.as_slice());
        assert(may_read(*read_unsure, bytes@, decoded));
        let ghost view = decoded;
        let r = scan_operations(decoded, doc, page_id, pictures, base);
        assert(is_page_scan(
            r,
            page_scan_of(
                decoded_view(view),
                document_objects(*doc),
                page_id,
                pictures@,
                base as nat,
            ),
        ));
        r
    } else {
        let decoded = decode_operations(bytes.as_slice());
        scan_operations(decoded, doc, page_id, pictures, base)
    }
}

/// The bytes that some operations are written as, or why they are not.
pub uninterp spec fn content_bytes_of(
    ops: Seq<(Seq<char>, Seq<ObjectModel>)>,
) -> Result<Seq<u8>, Seq<char>>;

/// `lopdf::content::Content::encode` writes operations. The bytes depend on the operations
/// alone.
#[verifier::external_body]
fn encode_operations(ops: &Vec<lopdf::content::Operation>) -> (r: Result<Vec<u8>, String>)
    ensures
        match content_bytes_of(operation_models(ops@)) {
            Ok(bytes) => r matches Ok(v) && v@ == bytes,
            Err(text) => r matches Err(e) && e@ == text,
        },
{
    let content = lopdf::content::Content { operations: ops.as_slice() };
    content.encode().map_err(|e| e.to_string())
}

/// The objects with one more, which holds some bytes.
pub open spec fn with_stream(
    objects: Map<(u32, u16), ObjectModel>,
    last: u32,
    bytes: Seq<u8>,
) -> Map<(u32, u16), ObjectModel> {
    objects.insert(((last + 1) as u32, 0u16), plain_stream(bytes))
}

/// The objects after the content of a page was replaced by these bytes, and the complaint, if
/// there is one. Where the page is not there, the bytes are added all the same.
pub open spec fn replaced_bytes(
    objects: Map<(u32, u16), ObjectModel>,
    last: u32,
    page_id: (u32, u16),
    bytes: Seq<u8>,
) -> (Map<(u32, u16), ObjectModel>, Option<Seq<char>>) {
    if last == u32::MAX {
        (objects, Some("não há números livres para mais objetos"@))
    } else {
        let more = with_stream(objects, last, bytes);
        match dictionary_of(object_at(more, page_id)) {
            Err(e) => (more, Some(e)),
            Ok(page) => (
                more.insert(
                    resting_id(more, page_id, REFERENCE_LIMIT as nat),
                    ObjectModel::Dictionary(
                        with_entry(
                            page,
                            vstd::utf8::encode_utf8("Contents"@),
                            ObjectModel::Reference(((last + 1) as u32, 0u16)),
                        ),
                    ),
                ),
                None,
            ),
        }
    }
}

/// The objects after the content of a page was replaced by these operations, or as they are
/// where the operations cannot be written, and the complaint, if there is one.
pub open spec fn replaced_content(
    objects: Map<(u32, u16), ObjectModel>,
    last: u32,
    page_id: (u32, u16),
    ops: Seq<(Seq<char>, Seq<ObjectModel>)>,
) -> (Map<(u32, u16), ObjectModel>, Option<Seq<char>>) {
    match content_bytes_of(ops) {
        Err(e) => (objects, Some(e)),
        Ok(bytes) => replaced_bytes(objects, last, page_id, bytes),
    }
}

/// Replaces the content of a page by these bytes: see `replaced_bytes`.
pub fn set_page_contents(doc: &mut lopdf::Document, page_id: (u32, u16), bytes: Vec<u8>) -> (r:
    Result<(), String>)
    ensures
        ({
            let (objects, complaint) = replaced_bytes(
                document_objects(*old(doc)),
                document_last_id(*old(doc)),
                page_id,
                bytes@,
            );
            &&& document_objects(*final(doc)) == objects
            &&& match complaint {
                Some(text) => r matches Err(e) && e@ == text,
                None => r is Ok,
            }
        }),
        document_trailer(*final(doc)) == document_trailer(*old(doc)),
{
    if last_id(doc) == u32::MAX {
        return Err("não há números livres para mais objetos".to_owned());
    }
    let stream_id = add_stream(doc, bytes);
    set_reference(doc, page_id, "Contents", stream_id)
}

/// Replaces the content of a page by these operations: see `replaced_content`.
pub fn patch_page_contents(
    doc: &mut lopdf::Document,
    page_id: (u32, u16),
    ops: &Vec<lopdf::content::Operation>,
) -> (r: Result<(), String>)
    ensures
        ({
            let (objects, complaint) = replaced_content(
                document_objects(*old(doc)),
                document_last_id(*old(doc)),
                page_id,
                operation_models(ops@),
            );
            &&& document_objects(*final(doc)) == objects
            &&& match complaint {
                Some(text) => r matches Err(e) && e@ == text,
                None => r is Ok,
            }
        }),
        document_trailer(*final(doc)) == document_trailer(*old(doc)),
{
    let bytes = encode_operations(ops)?;
    set_page_contents(doc, page_id, bytes)
}

proof fn lemma_resting(objects: Map<(u32, u16), ObjectModel>, id: (u32, u16), left: nat)
    requires
        objects.contains_key(id),
        followed(objects, objects[id], left) is Ok,
    ensures
        objects.contains_key(resting_id(objects, id, left)),
        Ok::<ObjectModel, Seq<char>>(objects[resting_id(objects, id, left)]) == followed(
            objects,
            objects[id],
            left,
        ),
    decreases left,
{
    if let ObjectModel::Reference(next) = objects[id] {
        lemma_resting(objects, next, (left - 1) as nat);
    }
}

/// Once the content of a page was replaced, the page's dictionary refers to a stream that holds
/// exactly the new operations.
pub proof fn a_replaced_page_shows_the_new_content(
    objects: Map<(u32, u16), ObjectModel>,
    last: u32,
    page_id: (u32, u16),
    ops: Seq<(Seq<char>, Seq<ObjectModel>)>,
)
    requires
        replaced_content(objects, last, page_id, ops).1 is None,
    ensures
        ({
            let after = replaced_content(objects, last, page_id, ops).0;
            let stream = ((last + 1) as u32, 0u16);
            let place = resting_id(
                with_stream(objects, last, content_bytes_of(ops)->Ok_0),
                page_id,
                REFERENCE_LIMIT as nat,
            );
            &&& after[place] matches ObjectModel::Dictionary(page)
            &&& lookup(page, vstd::utf8::encode_utf8("Contents"@)) == Some(
                ObjectModel::Reference(stream),
            )
            &&& after[stream] == plain_stream(content_bytes_of(ops)->Ok_0)
        }),
{
    let bytes = content_bytes_of(ops)->Ok_0;
    let more = with_stream(objects, last, bytes);
    let stream = ((last + 1) as u32, 0u16);
    let place = resting_id(more, page_id, REFERENCE_LIMIT as nat);
    lemma_resting(more, page_id, REFERENCE_LIMIT as nat);
    let page = dictionary_of(object_at(more, page_id))->Ok_0;
    assert(more[place] == ObjectModel::Dictionary(page));
    assert(more[stream] == plain_stream(bytes));
    assert(place != stream);
    an_entry_is_found_again(
        page,
        vstd::utf8::encode_utf8("Contents"@),
        ObjectModel::Reference(stream),
    );
}

/// Replacing the content of a page changes the page and adds a stream. Every other object stays as
/// it was.
pub proof fn other_objects_stay(
    objects: Map<(u32, u16), ObjectModel>,
    last: u32,
    page_id: (u32, u16),
    ops: Seq<(Seq<char>, Seq<ObjectModel>)>,
    id: (u32, u16),
)
    requires
        objects.contains_key(page_id),
        !(objects[page_id] is Reference),
        id != page_id,
        last < u32::MAX ==> page_id != ((last + 1) as u32, 0u16) && id != (
            (last + 1) as u32,
            0u16,
        ),
    ensures
        replaced_content(objects, last, page_id, ops).0.contains_key(id) == objects.contains_key(
            id,
        ),
        objects.contains_key(id) ==> replaced_content(objects, last, page_id, ops).0[id]
            == objects[id],
{
    if let Ok(bytes) = content_bytes_of(ops) {
        if last < u32::MAX {
            let more = with_stream(objects, last, bytes);
            assert(more[page_id] == objects[page_id]);
            assert(resting_id(more, page_id, REFERENCE_LIMIT as nat) == page_id);
        }
    }
}

} // verus!
