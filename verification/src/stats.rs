use vstd::prelude::*;

verus! {

/// Draw statistics of one frame or one layer.
#[derive(Clone, Copy, Debug, PartialEq, Eq, Structural)]
pub struct RenderStats {
    pub draw_calls: u32,
    pub triangles: u32,
}

impl RenderStats {
    /// Adds `other`'s counts to these.
    pub fn merge(&mut self, other: Self)
        requires
            old(self).draw_calls + other.draw_calls <= u32::MAX,
            old(self).triangles + other.triangles <= u32::MAX,
        ensures
            final(self).draw_calls == old(self).draw_calls + other.draw_calls,
            final(self).triangles == old(self).triangles + other.triangles,
    {
        self.draw_calls += other.draw_calls;
        self.triangles += other.triangles;
    }

    /// The stats of one draw call of a triangle list with `vertex_count` vertices.
    pub fn from_triangle_list_vertices(vertex_count: u32) -> (r: Self)
        ensures
            r.draw_calls == 1,
            r.triangles == vertex_count / 3,
    {
        Self { draw_calls: 1, triangles: vertex_count / 3 }
    }
}

impl Default for RenderStats {
    /// No draw calls, no triangles.
    fn default() -> (r: Self)
        ensures
            r.draw_calls == 0,
            r.triangles == 0,
    {
        Self { draw_calls: 0, triangles: 0 }
    }
}

} // verus!
