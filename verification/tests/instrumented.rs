use std::cell::Cell;
use std::rc::Rc;

use content_store::backend::hashmap::MemoryBackend;
use content_store::backend::{Backend, BlobMap};
use content_store::content::{Content, Sink, Source, Wire};
use content_store::error::Error;
use content_store::lazy::Lazy;
use content_store::store::Store;

struct Counted {
    v: u8,
    serializes: Rc<Cell<u32>>,
}

// The specification-level items of `Wire` are erased at run time and
// never called; the bodies here only satisfy the compiler.
impl Wire for Counted {
    fn encoding(&self) -> vstd::prelude::Seq<u8> {
        unreachable!()
    }

    fn valid(&self) -> bool {
        unreachable!()
    }

    fn same(&self, _: &Self) -> bool {
        unreachable!()
    }

    fn fresh(&self) -> bool {
        unreachable!()
    }

    fn referents(&self) -> BlobMap {
        unreachable!()
    }

    fn lemma_prefix_free(&self, _: &Self) {}

    fn lemma_same_iff_encoding(&self, _: &Self) {}
}

impl<B: Backend> Content<B> for Counted {
    fn to_content(&mut self, sink: &mut Sink, backend: &mut B) -> Result<(), Error> {
        self.serializes.set(self.serializes.get() + 1);
        self.v.to_content(sink, backend)
    }

    fn from_content(source: &mut Source) -> Result<Self, Error> {
        let v = <u8 as Content<B>>::from_content(source)?;
        Ok(Counted {
            v,
            serializes: Rc::new(Cell::new(0)),
        })
    }
}

#[test]
fn at_most_one_serialization_per_put() {
    let counter = Rc::new(Cell::new(0u32));
    let mut store: Store<Lazy<Counted>, MemoryBackend> = Store::new();
    let mut lazy = Lazy::new(Counted {
        v: 8,
        serializes: counter.clone(),
    });

    let d1 = store.put(&mut lazy).unwrap();
    assert_eq!(counter.get(), 1);

    // Serializing the same reference again writes only its digest.
    let d2 = store.put(&mut lazy).unwrap();
    assert_eq!(counter.get(), 1);
    assert!(d1 == d2);
}

#[test]
fn at_most_one_serialization_per_hash() {
    let counter = Rc::new(Cell::new(0u32));
    let mut lazy = Lazy::new(Counted {
        v: 8,
        serializes: counter.clone(),
    });

    let d1 = lazy.hash();
    assert_eq!(counter.get(), 1);
    let d2 = lazy.hash();
    assert_eq!(counter.get(), 1);
    assert!(d1 == d2);
}
