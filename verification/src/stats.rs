//! Value containers handed to the user interface: aggregate counts, titled
//! multi-value statistics, titled category/value pairs, and relative widget
//! geometry.

use vstd::prelude::*;

verus! {

/// A pair of aggregate counts over a collection: unique cards and total
/// quantity.
#[derive(Clone, Copy, Debug)]
pub struct UniqueTotal {
    unique: usize,
    total: usize,
}

impl UniqueTotal {
    /// The unique-card count this container holds.
    pub closed spec fn spec_unique(&self) -> usize {
        self.unique
    }

    /// The total-quantity count this container holds.
    pub closed spec fn spec_total(&self) -> usize {
        self.total
    }

    pub fn new(unique: usize, total: usize) -> (r: UniqueTotal)
        ensures
            r.spec_unique() == unique,
            r.spec_total() == total,
    {
        UniqueTotal { unique, total }
    }

    pub fn unique(&self) -> (r: usize)
        ensures
            r == self.spec_unique(),
    {
        self.unique
    }

    pub fn total(&self) -> (r: usize)
        ensures
            r == self.spec_total(),
    {
        self.total
    }
}

/// A titled statistic holding a list of display values; the values can be
/// taken out once, leaving the container empty.
#[derive(Clone, Debug)]
pub struct MultiValueStat {
    title: String,
    values: Option<Vec<String>>,
}

/// The value list a `MultiValueStat` currently holds, empty once taken.
spec fn stat_values(o: Option<Vec<String>>) -> Seq<Seq<char>> {
    match o {
        Some(v) => v@.map_values(|s: String| s@),
        None => Seq::empty(),
    }
}

impl MultiValueStat {
    /// The title of this statistic.
    pub closed spec fn spec_title(&self) -> Seq<char> {
        self.title@
    }

    /// The display values this statistic currently holds.
    pub closed spec fn spec_values(&self) -> Seq<Seq<char>> {
        stat_values(self.values)
    }

    pub fn new(title: String, values: Vec<String>) -> (r: MultiValueStat)
        ensures
            r.spec_title() == title@,
            r.spec_values() == values@.map_values(|s: String| s@),
    {
        MultiValueStat { title, values: Some(values) }
    }

    pub fn add_value(&mut self, value: String)
        ensures
            final(self).spec_title() == old(self).spec_title(),
            final(self).spec_values() == old(self).spec_values().push(value@),
    {
        match &mut self.values {
            Some(values) => {
                values.push(value);
                proof {
                    assert(stat_values(self.values) =~= stat_values(old(self).values).push(
                        value@,
                    ));
                }
            },
            None => {
                let mut v: Vec<String> = Vec::new();
                v.push(value);
                self.values = Some(v);
                proof {
                    assert(stat_values(self.values) =~= stat_values(old(self).values).push(
                        value@,
                    ));
                }
            },
        }
    }

    pub fn title(&self) -> (r: &str)
        ensures
            r@ == self.spec_title(),
    {
        self.title.as_str()
    }

    /// Takes the values out, leaving the container empty.
    pub fn take_values(&mut self) -> (r: Vec<String>)
        ensures
            final(self).spec_title() == old(self).spec_title(),
            r@.map_values(|s: String| s@) == old(self).spec_values(),
            final(self).spec_values() == Seq::<Seq<char>>::empty(),
    {
        let taken = self.values.take();
        match taken {
            Some(v) => v,
            None => {
                let v: Vec<String> = Vec::new();
                proof {
                    assert(v@.map_values(|s: String| s@) =~= Seq::<Seq<char>>::empty());
                }
                v
            },
        }
    }
}

/// A titled statistic holding description/value pairs; the pairs can be
/// taken out once, leaving the container empty.
#[derive(Clone, Debug)]
pub struct CategoryStat {
    title: String,
    value_pairs: Option<Vec<(String, String)>>,
}

/// The pair list a `CategoryStat` currently holds, empty once taken.
spec fn stat_pairs(o: Option<Vec<(String, String)>>) -> Seq<(Seq<char>, Seq<char>)> {
    match o {
        Some(v) => v@.map_values(|p: (String, String)| (p.0@, p.1@)),
        None => Seq::empty(),
    }
}

impl CategoryStat {
    /// The title of this statistic.
    pub closed spec fn spec_title(&self) -> Seq<char> {
        self.title@
    }

    /// The description/value pairs this statistic currently holds.
    pub closed spec fn spec_pairs(&self) -> Seq<(Seq<char>, Seq<char>)> {
        stat_pairs(self.value_pairs)
    }

    pub fn new(title: String, value_pairs: Vec<(String, String)>) -> (r: CategoryStat)
        ensures
            r.spec_title() == title@,
            r.spec_pairs() == value_pairs@.map_values(|p: (String, String)| (p.0@, p.1@)),
    {
        CategoryStat { title, value_pairs: Some(value_pairs) }
    }

    pub fn title(&self) -> (r: &str)
        ensures
            r@ == self.spec_title(),
    {
        self.title.as_str()
    }

    /// Takes the pairs out, leaving the container empty.
    pub fn take_value_pairs(&mut self) -> (r: Vec<(String, String)>)
        ensures
            final(self).spec_title() == old(self).spec_title(),
            r@.map_values(|p: (String, String)| (p.0@, p.1@)) == old(self).spec_pairs(),
            final(self).spec_pairs() == Seq::<(Seq<char>, Seq<char>)>::empty(),
    {
        let taken = self.value_pairs.take();
        match taken {
            Some(v) => v,
            None => {
                let v: Vec<(String, String)> = Vec::new();
                proof {
                    assert(v@.map_values(|p: (String, String)| (p.0@, p.1@)) =~= Seq::<
                        (Seq<char>, Seq<char>),
                    >::empty());
                }
                v
            },
        }
    }

    pub fn add_value_pair(&mut self, description: String, value: String)
        ensures
            final(self).spec_title() == old(self).spec_title(),
            final(self).spec_pairs() == old(self).spec_pairs().push((description@, value@)),
    {
        match &mut self.value_pairs {
            Some(value_pairs) => {
                value_pairs.push((description, value));
                proof {
                    assert(stat_pairs(self.value_pairs) =~= stat_pairs(
                        old(self).value_pairs,
                    ).push((description@, value@)));
                }
            },
            None => {
                let mut v: Vec<(String, String)> = Vec::new();
                v.push((description, value));
                self.value_pairs = Some(v);
                proof {
                    assert(stat_pairs(self.value_pairs) =~= stat_pairs(
                        old(self).value_pairs,
                    ).push((description@, value@)));
                }
            },
        }
    }
}

/// Integer division truncated toward zero, as the `/` operator of `i32`
/// computes it.
pub open spec fn div100_trunc(n: int) -> int {
    if n >= 0 {
        n / 100
    } else {
        -((-n) / 100)
    }
}

/// Relative position and size of a widget in percent, applied to concrete
/// pixel values by integer scaling.
#[derive(Clone, Copy, Debug)]
pub struct RelativeSize {
    pub perc_rel_pos_x: i32,
    pub perc_rel_pos_y: i32,
    pub perc_rel_size_w: i32,
    pub perc_rel_size_h: i32,
}

impl RelativeSize {
    pub fn new(
        perc_rel_pos_x: i32,
        perc_rel_pos_y: i32,
        perc_rel_size_w: i32,
        perc_rel_size_h: i32,
    ) -> (r: RelativeSize)
        ensures
            r.perc_rel_pos_x == perc_rel_pos_x,
            r.perc_rel_pos_y == perc_rel_pos_y,
            r.perc_rel_size_w == perc_rel_size_w,
            r.perc_rel_size_h == perc_rel_size_h,
    {
        RelativeSize { perc_rel_pos_x, perc_rel_pos_y, perc_rel_size_w, perc_rel_size_h }
    }

    /// Scales `x` by the relative x-position percentage.
    pub fn rel_val_x(&self, x: i32) -> (r: i32)
        requires
            i32::MIN <= x * self.perc_rel_pos_x <= i32::MAX,
        ensures
            r == div100_trunc(x * self.perc_rel_pos_x),
    {
        (x * self.perc_rel_pos_x) / 100
    }

    /// Scales `y` by the relative y-position percentage.
    pub fn rel_val_y(&self, y: i32) -> (r: i32)
        requires
            i32::MIN <= y * self.perc_rel_pos_y <= i32::MAX,
        ensures
            r == div100_trunc(y * self.perc_rel_pos_y),
    {
        (y * self.perc_rel_pos_y) / 100
    }

    /// Scales `w` by the relative width percentage.
    pub fn rel_val_w(&self, w: i32) -> (r: i32)
        requires
            i32::MIN <= w * self.perc_rel_size_w <= i32::MAX,
        ensures
            r == div100_trunc(w * self.perc_rel_size_w),
    {
        (w * self.perc_rel_size_w) / 100
    }

    /// Scales `h` by the relative height percentage.
    pub fn rel_val_h(&self, h: i32) -> (r: i32)
        requires
            i32::MIN <= h * self.perc_rel_size_h <= i32::MAX,
        ensures
            r == div100_trunc(h * self.perc_rel_size_h),
    {
        (h * self.perc_rel_size_h) / 100
    }
}

impl Default for RelativeSize {
    /// The identity scaling: every percentage is 100.
    fn default() -> (r: RelativeSize)
        ensures
            r.perc_rel_pos_x == 100,
            r.perc_rel_pos_y == 100,
            r.perc_rel_size_w == 100,
            r.perc_rel_size_h == 100,
    {
        RelativeSize::new(100, 100, 100, 100)
    }
}

} // verus!
