# szymczak

Finite modules over the rings Z/N, the relations and homomorphisms between
them, and the classes of their endomorphisms up to Szymczak isomorphism, as a
verified Verus library.

- `rmodule::ring` — the ring Z/N (`Fin<N>`), its operations and ring laws.
- `rmodule::torsion` — prime power decompositions (`Factorisable`), keys
  tagged with random identifiers (`Coeff`) and sorted trees of them
  (`CoeffTree`).
- `rmodule::canon`, `rmodule::map`, `rmodule::direct` — modules in canonical
  form, the homomorphisms between them (composition, sums, kernels and
  cokernels) and direct sums with their universal morphisms.
- `category`, `category::relation` — relations between modules as boolean
  matrices, their composition, identities and cycles of powers, and lists of
  relations between every pair of a list of modules (`Container`).
- `szymczak_category` — Szymczak isomorphism of endomorphisms, the raw
  classes and their merging, and the Szymczak classes of a container; the
  laws that Szymczak isomorphism is reflexive, symmetric and transitive, and
  that the raw classes are its isomorphism classes (in a container closed
  under composition that holds the identity of each module), however many
  endomorphisms are sorted.
- `zmodule` — finite abelian groups in canonical form, their elements and
  operations (with the module laws), and the homomorphisms between them.
- `torsion_coeff` — the table of all tuples of divisors.
- `util::matrix`, `util::smith` — row-major matrices, their row and column
  operations, boolean composition (associative, with the diagonal as unit),
  and the pseudo Smith form over Z/N.
- `ralg` — interfaces of algebraic structures, and sorted sets of marked
  things (`Mark`, `MarkTree`).
- `util::{number, order, iterator, ident, seq, sort, category_of_relations}` —
  divisors, gcd, orders on ranks and byte strings, cartesian powers,
  deduplication, identifiers, stable sorting, and the indexing of elements of
  direct sums.

Every function states its behaviour in `requires`/`ensures`; the laws of the
library are the `law_*` proof functions.
