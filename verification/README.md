# luna-nspire

Converts Lua and Python scripts to TI-Nspire `.tns` documents. It also converts
TI-Nspire problem XML and packs arbitrary files, such as images, into documents.

- A Lua script becomes the first problem of a document. The path `-` stands for
  a script on standard input.
- Of several Python scripts the first is the one that is shown when the document
  is opened.
- XML problems are brought into their compact form, compressed and encrypted.
- Bitmaps are stored as they are, and set the version of the document to 0700.
- Any other file is compressed.
- The text of a note is put into a problem of its own.

Files with special characters are UTF-8.

## Layout

`src/` is the library. It is written in Verus: what each function does is stated
in its contract and proved.

| Module       | What it holds                                                     |
|--------------|-------------------------------------------------------------------|
| `compile`    | what it takes to compile each kind of source                      |
| `assembly`   | the steps of a build, which asks its host for files and zlib      |
| `outcome`    | what a build comes to, for any host                               |
| `notes`      | what becomes of the text of a note                                |
| `problem`    | problems from Lua, Python and XML                                 |
| `unicode`    | UTF-8 and the character escapes of problem XML                    |
| `tixml`      | the compact form of problem XML                                   |
| `cdata`      | scripts inside CDATA sections                                     |
| `doccrypt`   | the cipher of documents                                           |
| `des`        | DES and triple DES                                                |
| `deflate`    | how zlib is run                                                   |
| `zip_writer` | the archive that a document is                                    |
| `readback`   | what a reader finds in such an archive                            |
| `templates`  | fixed parts of a document                                         |
| `text`       | paths, extensions and letter case                                 |
| `bytes`      | byte sequences and little-endian numbers                          |

Proof functions whose names start with `law_` state what holds across
functions: that scripts, XML, archives and encrypted data can be read back, that
a build always ends, and what is in the document that it makes.

`app/` carries out the requests of a build: it reads and writes files and calls
zlib.

Not proved, but taken from the documentation, is what two functions do:
`str::to_lowercase` of the standard library and `crc32fast::hash`.
