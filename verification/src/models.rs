//! The catalogue's data model: items with a stable id, a name, a category
//! and an ordered list of tags.

use vstd::prelude::*;

verus! {

/// Stable identifier of a catalogue item.
pub type ProductId = usize;

/// A catalogue item. The core never mutates one; it only reads snapshots.
pub struct Product {
    pub id: ProductId,
    pub name: String,
    pub category: String,
    pub tags: Vec<String>,
}

/// The mathematical content of a `Product`: its id and the character
/// sequences of its text fields.
pub ghost struct ProductView {
    pub id: ProductId,
    pub name: Seq<char>,
    pub category: Seq<char>,
    pub tags: Seq<Seq<char>>,
}

impl View for Product {
    type V = ProductView;

    open spec fn view(&self) -> ProductView {
        ProductView {
            id: self.id,
            name: self.name@,
            category: self.category@,
            tags: self.tags@.map_values(|t: String| t@),
        }
    }
}

impl Clone for Product {
    /// The copy carries the same id, name, category and tags.
    fn clone(&self) -> (r: Self)
        ensures
            r@ == self@,
    {
        let mut tags: Vec<String> = Vec::new();
        let mut i: usize = 0;
        while i < self.tags.len()
            invariant
                i <= self.tags@.len(),
                tags@.len() == i as int,
                forall|j: int| 0 <= j < i ==> tags@[j]@ == self.tags@[j]@,
            decreases self.tags@.len() - i,
        {
            tags.push(String::from_str(self.tags[i].as_str()));
            i = i + 1;
        }
        let r = Product {
            id: self.id,
            name: String::from_str(self.name.as_str()),
            category: String::from_str(self.category.as_str()),
            tags,
        };
        proof {
            assert(r@.tags =~= self@.tags);
        }
        r
    }
}

} // verus!
