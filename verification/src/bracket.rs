//! A bracket: the exposures of one scene in one channel, from the
//! shortest to the longest, and the mappings between them.

use vstd::prelude::*;
use crate::fit::all_usable;
use crate::fixed::magnitude;
use crate::histogram::Histogram;
use crate::mapping::{ExposureMapping, informative, matched_points, ratio_of};

verus! {

/// How many times the light of an exposure its partner should have.
pub const TARGET_RATIO: u64 = 2;

/// The exposures of a bracket, without their histograms.
pub open spec fn exposures_of(images: Seq<(Histogram, u64)>) -> Seq<u64> {
    Seq::new(images.len(), |i: int| images[i].1)
}

/// Every histogram of a bracket is well formed.
pub open spec fn all_countable(images: Seq<(Histogram, u64)>) -> bool {
    forall|i: int| 0 <= i < images.len() ==> (#[trigger] images[i]).0.wf()
}

/// How far exposure `j` is from `TARGET_RATIO` times exposure `i`. This
/// orders the exposures as the distance of their ratio to exposure `i`
/// from the target does.
pub open spec fn ratio_gap(exposures: Seq<u64>, i: int, j: int) -> int {
    magnitude(exposures[j] - TARGET_RATIO * exposures[i])
}

/// Where the search for the partner of exposure `i` ends, once it has
/// taken `current`: it goes on to the next exposure as long as that one
/// is no further from the target, and stops at the first that is.
pub open spec fn partner_from(exposures: Seq<u64>, i: int, current: int) -> int
    decreases exposures.len() - current,
{
    if current + 1 < exposures.len() && ratio_gap(exposures, i, current + 1) <= ratio_gap(
        exposures,
        i,
        current,
    ) {
        partner_from(exposures, i, current + 1)
    } else {
        current
    }
}

/// The partner of exposure `i`: a later exposure, found by a search that
/// starts with the next one. The last exposure has none.
pub open spec fn partner_of(exposures: Seq<u64>, i: int) -> Option<int> {
    if 0 <= i && i + 1 < exposures.len() {
        Some(partner_from(exposures, i, i + 1))
    } else {
        None
    }
}

/// The search ends within the bracket, at or after where it stands; up
/// to its end no exposure is further from the target than the one before
/// it, and the exposure after its end is.
pub proof fn lemma_partner_from(exposures: Seq<u64>, i: int, current: int)
    requires
        0 <= current < exposures.len(),
    ensures
        current <= partner_from(exposures, i, current) < exposures.len(),
        forall|m: int|
            current < m <= partner_from(exposures, i, current) ==> #[trigger] ratio_gap(
                exposures,
                i,
                m,
            ) <= ratio_gap(exposures, i, m - 1),
        partner_from(exposures, i, current) + 1 < exposures.len() ==> ratio_gap(
            exposures,
            i,
            partner_from(exposures, i, current) + 1,
        ) > ratio_gap(exposures, i, partner_from(exposures, i, current)),
    decreases exposures.len() - current,
{
    if current + 1 < exposures.len() && ratio_gap(exposures, i, current + 1) <= ratio_gap(
        exposures,
        i,
        current,
    ) {
        lemma_partner_from(exposures, i, current + 1);
    }
}

fn gap_of(images: &Vec<(Histogram, u64)>, i: usize, j: usize) -> (g: i128)
    requires
        i < images.len(),
        j < images.len(),
    ensures
        g == ratio_gap(exposures_of(images@), i as int, j as int),
{
    let target: i128 = (TARGET_RATIO as i128) * (images[i].1 as i128);
    let d: i128 = (images[j].1 as i128) - target;
    if d >= 0 {
        d
    } else {
        -d
    }
}

/// Finds the partner of exposure `i`.
pub fn select_partner(images: &Vec<(Histogram, u64)>, i: usize) -> (r: Option<usize>)
    ensures
        match r {
            Some(p) => partner_of(exposures_of(images@), i as int) == Some(p as int),
            None => partner_of(exposures_of(images@), i as int).is_none(),
        },
        r.is_some() <==> i + 1 < images.len(),
        r.is_some() ==> i < r.unwrap() < images.len(),
{
    let n: usize = images.len();
    if i >= n || i + 1 >= n {
        return None;
    }
    let ghost exposures = exposures_of(images@);
    let mut current: usize = i + 1;
    let mut best: i128 = gap_of(images, i, current);
    let mut searching: bool = true;
    while searching && current + 1 < n
        invariant
            i < current < n,
            n == images.len(),
            exposures == exposures_of(images@),
            best == ratio_gap(exposures, i as int, current as int),
            partner_from(exposures, i as int, i + 1) == partner_from(
                exposures,
                i as int,
                current as int,
            ),
            !searching ==> partner_from(exposures, i as int, current as int) == current,
        decreases n - current, searching as int,
    {
        let next: i128 = gap_of(images, i, current + 1);
        if next > best {
            searching = false;
        } else {
            current = current + 1;
            best = next;
        }
    }
    Some(current)
}

/// The mapping that the bracket gives for exposure `i`: the one between
/// it and its partner, where the two say anything of the sensor. Given as
/// the points and the ratio.
pub open spec fn mapping_at(images: Seq<(Histogram, u64)>, i: int) -> Option<
    (Seq<(i64, i64)>, int),
> {
    match partner_of(exposures_of(images), i) {
        Some(p) => if informative(
            images[i].0.buckets@,
            images[p].0.buckets@,
            images[i].1 as int,
            images[p].1 as int,
        ) {
            Some(
                (
                    matched_points(images[i].0.buckets@, images[p].0.buckets@),
                    ratio_of(images[i].1 as int, images[p].1 as int),
                ),
            )
        } else {
            None
        },
        None => None,
    }
}

/// The mappings that the first `n` exposures of a bracket give, in
/// order.
pub open spec fn mappings_upto(images: Seq<(Histogram, u64)>, n: int) -> Seq<
    (Seq<(i64, i64)>, int),
>
    decreases n,
{
    if n <= 0 {
        Seq::empty()
    } else {
        match mapping_at(images, n - 1) {
            Some(m) => mappings_upto(images, n - 1).push(m),
            None => mappings_upto(images, n - 1),
        }
    }
}

/// The points and the ratio of each mapping of a sequence.
pub open spec fn models_of(mappings: Seq<ExposureMapping>) -> Seq<(Seq<(i64, i64)>, int)> {
    Seq::new(mappings.len(), |k: int| (mappings[k].curve@, mappings[k].exposure_ratio as int))
}

/// The mapping between one exposure of a bracket and its partner, or
/// nothing where it has no partner or the two say nothing of the sensor.
pub fn mapping_for(images: &Vec<(Histogram, u64)>, i: usize) -> (r: Option<ExposureMapping>)
    requires
        all_countable(images@),
    ensures
        match r {
            Some(m) => m.wf() && mapping_at(images@, i as int) == Some(
                (m.curve@, m.exposure_ratio as int),
            ),
            None => mapping_at(images@, i as int).is_none(),
        },
{
    match select_partner(images, i) {
        Some(p) => {
            assert(images@[i as int].0.wf());
            assert(images@[p as int].0.wf());
            ExposureMapping::from_histograms(&images[i].0, &images[p].0, images[i].1, images[p].1)
        },
        None => None,
    }
}

/// The mappings of a bracket: one for each exposure whose partner adds
/// something to it. A bracket that says nothing of the sensor gives
/// none.
pub fn compute_exposure_mappings(images: &Vec<(Histogram, u64)>) -> (mappings: Vec<
    ExposureMapping,
>)
    requires
        all_countable(images@),
    ensures
        models_of(mappings@) == mappings_upto(images@, images.len() as int),
        all_usable(mappings@),
        mappings.len() <= images.len(),
{
    let mut mappings: Vec<ExposureMapping> = Vec::new();
    let mut i: usize = 0;
    while i < images.len()
        invariant
            0 <= i <= images.len(),
            all_countable(images@),
            models_of(mappings@) =~= mappings_upto(images@, i as int),
            all_usable(mappings@),
            mappings.len() <= i,
        decreases images.len() - i,
    {
        let ghost before = mappings@;
        match mapping_for(images, i) {
            Some(m) => {
                mappings.push(m);
                assert(models_of(mappings@) =~= models_of(before).push(
                    (m.curve@, m.exposure_ratio as int),
                ));
            },
            None => {},
        }
        i = i + 1;
    }
    mappings
}

/// One image of a bracket: the histograms of its three channels, and
/// its exposure where that is known.
#[derive(Debug, Clone)]
pub struct BracketImage {
    pub red: Histogram,
    pub green: Histogram,
    pub blue: Histogram,
    pub exposure: Option<u64>,
}

/// The brackets of the three channels of one scene.
#[derive(Debug, Clone)]
pub struct ChannelBrackets {
    pub red: Vec<(Histogram, u64)>,
    pub green: Vec<(Histogram, u64)>,
    pub blue: Vec<(Histogram, u64)>,
}

/// One of the three channels.
#[derive(Debug, Copy, Clone, PartialEq, Eq, Structural)]
pub enum Channel {
    Red,
    Green,
    Blue,
}

impl BracketImage {
    /// The counts of one channel.
    pub open spec fn counts(&self, channel: Channel) -> Seq<u64> {
        match channel {
            Channel::Red => self.red.buckets@,
            Channel::Green => self.green.buckets@,
            Channel::Blue => self.blue.buckets@,
        }
    }
}

/// Every histogram of every image is well formed.
pub open spec fn all_images_countable(image_sets: Seq<Vec<BracketImage>>) -> bool {
    forall|s: int, i: int|
        0 <= s < image_sets.len() && 0 <= i < image_sets[s].len() ==> {
            &&& (#[trigger] image_sets[s][i]).red.wf()
            &&& image_sets[s][i].green.wf()
            &&& image_sets[s][i].blue.wf()
        }
}

/// The counts and the exposure of each image of a bracket.
pub open spec fn counted(images: Seq<(Histogram, u64)>) -> Seq<(Seq<u64>, u64)> {
    Seq::new(images.len(), |i: int| (images[i].0.buckets@, images[i].1))
}

/// Of the first `n` images, those whose exposure is known, in order:
/// the counts of one channel and the exposure of each.
pub open spec fn known_upto(images: Seq<BracketImage>, channel: Channel, n: int) -> Seq<
    (Seq<u64>, u64),
>
    decreases n,
{
    if n <= 0 {
        Seq::empty()
    } else {
        match images[n - 1].exposure {
            Some(e) => known_upto(images, channel, n - 1).push((images[n - 1].counts(channel), e)),
            None => known_upto(images, channel, n - 1),
        }
    }
}

/// The brackets of the three channels of each set of images: every image
/// whose exposure is known, in the order given.
pub fn bracket_images_to_histogram_sets(image_sets: &Vec<Vec<BracketImage>>) -> (sets: Vec<
    ChannelBrackets,
>)
    ensures
        sets.len() == image_sets.len(),
        forall|s: int|
            0 <= s < sets.len() ==> {
                &&& counted((#[trigger] sets[s]).red@) == known_upto(
                    image_sets[s]@,
                    Channel::Red,
                    image_sets[s].len() as int,
                )
                &&& counted(sets[s].green@) == known_upto(
                    image_sets[s]@,
                    Channel::Green,
                    image_sets[s].len() as int,
                )
                &&& counted(sets[s].blue@) == known_upto(
                    image_sets[s]@,
                    Channel::Blue,
                    image_sets[s].len() as int,
                )
            },
        all_images_countable(image_sets@) ==> forall|s: int|
            0 <= s < sets.len() ==> all_countable((#[trigger] sets[s]).red@) && all_countable(
                sets[s].green@,
            ) && all_countable(sets[s].blue@),
{
    let mut sets: Vec<ChannelBrackets> = Vec::new();
    let mut s: usize = 0;
    while s < image_sets.len()
        invariant
            0 <= s <= image_sets.len(),
            sets.len() == s,
            forall|k: int|
                0 <= k < s ==> {
                    &&& counted((#[trigger] sets[k]).red@) == known_upto(
                        image_sets[k]@,
                        Channel::Red,
                        image_sets[k].len() as int,
                    )
                    &&& counted(sets[k].green@) == known_upto(
                        image_sets[k]@,
                        Channel::Green,
                        image_sets[k].len() as int,
                    )
                    &&& counted(sets[k].blue@) == known_upto(
                        image_sets[k]@,
                        Channel::Blue,
                        image_sets[k].len() as int,
                    )
                },
            all_images_countable(image_sets@) ==> forall|k: int|
                0 <= k < s ==> all_countable((#[trigger] sets[k]).red@) && all_countable(
                    sets[k].green@,
                ) && all_countable(sets[k].blue@),
        decreases image_sets.len() - s,
    {
        let images = &image_sets[s];
        let mut red: Vec<(Histogram, u64)> = Vec::new();
        let mut green: Vec<(Histogram, u64)> = Vec::new();
        let mut blue: Vec<(Histogram, u64)> = Vec::new();
        let mut i: usize = 0;
        while i < images.len()
            invariant
                0 <= i <= images.len(),
                counted(red@) =~= known_upto(images@, Channel::Red, i as int),
                counted(green@) =~= known_upto(images@, Channel::Green, i as int),
                counted(blue@) =~= known_upto(images@, Channel::Blue, i as int),
                images == image_sets[s as int],
                s < image_sets.len(),
                all_images_countable(image_sets@) ==> all_countable(red@) && all_countable(green@)
                    && all_countable(blue@),
            decreases images.len() - i,
        {
            match images[i].exposure {
                Some(e) => {
                    let ghost r0 = counted(red@);
                    let ghost g0 = counted(green@);
                    let ghost b0 = counted(blue@);
                    red.push((images[i].red.duplicate(), e));
                    green.push((images[i].green.duplicate(), e));
                    blue.push((images[i].blue.duplicate(), e));
                    assert(counted(red@) =~= r0.push((images[i as int].counts(Channel::Red), e)));
                    assert(counted(green@) =~= g0.push(
                        (images[i as int].counts(Channel::Green), e),
                    ));
                    assert(counted(blue@) =~= b0.push((images[i as int].counts(Channel::Blue), e)));
                    assert(all_images_countable(image_sets@) ==> image_sets[s as int][i as int].red.wf());
                },
                None => {},
            }
            i = i + 1;
        }
        sets.push(ChannelBrackets { red, green, blue });
        s = s + 1;
    }
    sets
}

} // verus!
