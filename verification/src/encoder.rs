//! The encoder context: the scene under construction and its running counts.

use vstd::prelude::*;
use crate::scene::{
    encode_scene,
    fill_count,
    lemma_counts_concat,
    lemma_counts_total,
    scene_bytes,
    segment_count,
    transform_count,
    Element,
    Matrix,
    Point,
};
use crate::text::PathEncoder;

verus! {

/// A scene under construction: its elements in order, and how many of them
/// are fills, segments and transforms. The stages that read the scene size
/// their buffers by these counts.
#[derive(Clone, Debug)]
pub struct SceneEncoder {
    elements: Vec<Element>,
    path_count: usize,
    pathseg_count: usize,
    trans_count: usize,
}

impl View for SceneEncoder {
    type V = Seq<Element>;

    closed spec fn view(&self) -> Seq<Element> {
        self.elements@
    }
}

impl SceneEncoder {
    /// The counts agree with the elements.
    pub closed spec fn wf(&self) -> bool {
        &&& self.path_count == fill_count(self.elements@)
        &&& self.pathseg_count == segment_count(self.elements@)
        &&& self.trans_count == transform_count(self.elements@)
    }

    /// An empty scene.
    pub fn new() -> (r: SceneEncoder)
        ensures
            r.wf(),
            r@ == Seq::<Element>::empty(),
    {
        SceneEncoder { elements: Vec::new(), path_count: 0, pathseg_count: 0, trans_count: 0 }
    }

    /// The elements encoded so far.
    pub fn elements(&self) -> (r: &[Element])
        ensures
            r@ == self@,
    {
        self.elements.as_slice()
    }

    /// The number of paths: one for each fill.
    pub fn path_count(&self) -> (r: usize)
        requires
            self.wf(),
        ensures
            r == fill_count(self@),
    {
        self.path_count
    }

    /// The number of path segments.
    pub fn pathseg_count(&self) -> (r: usize)
        requires
            self.wf(),
        ensures
            r == segment_count(self@),
    {
        self.pathseg_count
    }

    /// The number of transforms.
    pub fn trans_count(&self) -> (r: usize)
        requires
            self.wf(),
        ensures
            r == transform_count(self@),
    {
        self.trans_count
    }

    /// Appends a transform, which applies to the geometry that follows.
    pub fn encode_transform(&mut self, mat: Matrix, translate: Point)
        requires
            old(self).wf(),
        ensures
            final(self).wf(),
            final(self)@ == old(self)@.push(Element::Transform { mat, translate }),
    {
        proof {
            let element = Element::Transform { mat, translate };
            assert(self.elements@.push(element).drop_last() =~= self.elements@);
            lemma_counts_total(self.elements@);
        }
        self.elements.push(Element::Transform { mat, translate });
        let total: usize = self.elements.len();
        assert(total == old(self)@.len() + 1);
        self.trans_count = self.trans_count + 1;
    }

    /// Appends a fill, which paints the segments since the last fill or
    /// transform and counts as one path.
    pub fn fill_glyph(&mut self, rgba_color: u32)
        requires
            old(self).wf(),
        ensures
            final(self).wf(),
            final(self)@ == old(self)@.push(Element::FillColor { rgba_color }),
    {
        proof {
            let element = Element::FillColor { rgba_color };
            assert(self.elements@.push(element).drop_last() =~= self.elements@);
            lemma_counts_total(self.elements@);
        }
        self.elements.push(Element::FillColor { rgba_color });
        let total: usize = self.elements.len();
        assert(total == old(self)@.len() + 1);
        self.path_count = self.path_count + 1;
    }

    /// Appends the elements of a path. Its segments count as path segments
    /// and each of its fills as one path.
    pub fn append_path_encoder(&mut self, path: &PathEncoder)
        requires
            old(self).wf(),
            path.wf(),
        ensures
            final(self).wf(),
            final(self)@ == old(self)@ + path@,
    {
        let items = path.elements();
        let n_segs: usize = path.n_segs();
        let n_fills: usize = path.n_colr_layers();
        proof {
            path.lemma_no_transforms();
            lemma_counts_concat(self.elements@, items@);
            lemma_counts_total(self.elements@);
            lemma_counts_total(items@);
        }
        let mut copy = vstd::slice::slice_to_vec(items);
        self.elements.append(&mut copy);
        let total: usize = self.elements.len();
        assert(total == old(self)@.len() + items@.len());
        self.pathseg_count = self.pathseg_count + n_segs;
        self.path_count = self.path_count + n_fills;
    }

    /// Appends all that another encoder holds.
    pub fn append_scene(&mut self, other: &SceneEncoder)
        requires
            old(self).wf(),
            other.wf(),
        ensures
            final(self).wf(),
            final(self)@ == old(self)@ + other@,
    {
        proof {
            lemma_counts_concat(self.elements@, other.elements@);
            lemma_counts_total(self.elements@);
            lemma_counts_total(other.elements@);
        }
        let mut copy = vstd::slice::slice_to_vec(other.elements.as_slice());
        self.elements.append(&mut copy);
        let total: usize = self.elements.len();
        assert(total == old(self)@.len() + other@.len());
        self.pathseg_count = self.pathseg_count + other.pathseg_count;
        self.path_count = self.path_count + other.path_count;
        self.trans_count = self.trans_count + other.trans_count;
    }

    /// The scene buffer: the record of each element in turn.
    pub fn get_scene_buf(&self) -> (r: Vec<u8>)
        ensures
            r@ == scene_bytes(self@),
    {
        encode_scene(&self.elements)
    }
}

} // verus!
