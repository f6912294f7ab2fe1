use vstd::prelude::*;
use crate::stress::Syllable;

verus! {

/// The stresses that one position of a meter accepts.
#[derive(Copy, Clone, Debug, PartialEq, Eq, Structural)]
pub struct PositionClass {
    pub primary: bool,
    pub secondary: bool,
    pub unstressed: bool,
}

impl PositionClass {
    pub open spec fn accepts_spec(self, s: Syllable) -> bool {
        match s {
            Syllable::PrimaryStress => self.primary,
            Syllable::SecondaryStress => self.secondary,
            Syllable::Unstressed => self.unstressed,
        }
    }

    pub fn accepts(&self, s: Syllable) -> (r: bool)
        ensures
            r == self.accepts_spec(s),
    {
        match s {
            Syllable::PrimaryStress => self.primary,
            Syllable::SecondaryStress => self.secondary,
            Syllable::Unstressed => self.unstressed,
        }
    }

    /// A stressed position: primary or secondary stress.
    pub fn stressed() -> (r: PositionClass)
        ensures
            r == (PositionClass { primary: true, secondary: true, unstressed: false }),
    {
        PositionClass { primary: true, secondary: true, unstressed: false }
    }

    /// An unstressed position.
    pub fn unstressed() -> (r: PositionClass)
        ensures
            r == (PositionClass { primary: false, secondary: false, unstressed: true }),
    {
        PositionClass { primary: false, secondary: false, unstressed: true }
    }
}

/// The stress sequence and the template have the same length.
#[derive(Copy, Clone, Debug, PartialEq, Eq, Structural)]
pub struct LengthMismatch {
    pub sequence_len: usize,
    pub template_len: usize,
}

/// Every position of `seq` holds a stress that the same position of
/// `template` accepts.
pub open spec fn fits(seq: Seq<Syllable>, template: Seq<PositionClass>) -> bool {
    &&& seq.len() == template.len()
    &&& forall|p: int| 0 <= p < seq.len() ==> (#[trigger] template[p]).accepts_spec(seq[p])
}

/// Tests a stress sequence against a meter template of the same length,
/// position by position.
pub fn matches(seq: &[Syllable], template: &[PositionClass]) -> (r: Result<bool, LengthMismatch>)
    ensures
        seq@.len() != template@.len() <==> r is Err,
        r is Err ==> r == Err::<bool, LengthMismatch>(
            LengthMismatch { sequence_len: seq@.len() as usize, template_len: template@.len() as usize },
        ),
        r is Ok ==> r == Ok::<bool, LengthMismatch>(fits(seq@, template@)),
{
    if seq.len() != template.len() {
        return Err(LengthMismatch { sequence_len: seq.len(), template_len: template.len() });
    }
    let mut p: usize = 0;
    while p < seq.len()
        invariant
            seq@.len() == template@.len(),
            p <= seq@.len(),
            forall|q: int| 0 <= q < p ==> (#[trigger] template@[q]).accepts_spec(seq@[q]),
        decreases seq@.len() - p,
    {
        if !template[p].accepts(seq[p]) {
            return Ok(false);
        }
        p += 1;
    }
    Ok(true)
}

/// The position classes of trochaic tetrameter: four feet of a stressed
/// syllable followed by an unstressed one.
pub open spec fn trochaic_class(p: int) -> PositionClass {
    if p % 2 == 0 {
        PositionClass { primary: true, secondary: true, unstressed: false }
    } else {
        PositionClass { primary: false, secondary: false, unstressed: true }
    }
}

/// The template of trochaic tetrameter, eight positions long.
pub fn trochaic_tetrameter() -> (r: Vec<PositionClass>)
    ensures
        r@.len() == 8,
        forall|p: int| 0 <= p < 8 ==> #[trigger] r@[p] == trochaic_class(p),
{
    let mut t: Vec<PositionClass> = Vec::new();
    let mut p: usize = 0;
    while p < 8
        invariant
            p <= 8,
            t@.len() == p,
            forall|q: int| 0 <= q < p ==> #[trigger] t@[q] == trochaic_class(q),
        decreases 8 - p,
    {
        if p % 2 == 0 {
            t.push(PositionClass::stressed());
        } else {
            t.push(PositionClass::unstressed());
        }
        p += 1;
    }
    t
}

} // verus!
