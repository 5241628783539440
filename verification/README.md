# proxynexus

Proxy sheets for Netrunner: from a card list, a set name or a NetrunnerDB
deck address, the cards are looked up in a local catalog, a printing of each
is chosen among the image collections installed on the machine, and the
images are laid out on a PDF or packed into an upload archive for
MakePlayingCards.

The library under `src/` is verified with Verus. Every public function states
in its contract what it returns; the laws that relate several functions stand
as public proof functions (`law_*`) next to them:

- `card_store`: card lists, set names and deck codes become card requests;
  the choice of a printing for each request (variant first, then collection,
  then pack, the oldest release among equals).
- `query`: the text answers of the query command; an answer reads back as a
  card list asking for the printings it shows.
- `mpc`: which image goes into which file of an upload; every image gets one
  file, numbered within its folder, with a path of its own.
- `border`: bleed borders by edge replication and the mark that makes each
  copy of an image unique.
- `collection_builder`, `collection_manager`, `image_scanner`, `naming`:
  collection packages, the naming of their image files and their index rows.
- `catalog`, `db_storage`, `sql`, `sql_reader`: the statements that fill and
  export the databases; read back statement by statement, an export gives
  every table's rows as they were.
- `archive`, `image_codec`: the calls into `zip`, `image` and `jpeg-encoder`,
  each behind a small trusted wrapper whose contract says what the crate
  gives back and on which inputs it succeeds; upload archives are stored,
  collection packages deflated.
- `text`, `order`, `paths`: string, ordering and path primitives.

`app/` is the command-line program around the library: argument handling,
files, databases, network requests, and the PDF drawing. `tests/` runs the
library on concrete inputs.
